//! The text form of a pkgsrc `pkgdb.byfile.db`, as `pkg_admin dump` has it.

use vstd::prelude::*;
use vstd::slice::slice_subrange;
use vstd::slice::slice_to_vec;

verus! {

/// `b` without the NUL at its end, if there is one.
pub open spec fn trimmed(b: Seq<u8>) -> Seq<u8> {
    if b.len() > 0 && b.last() == 0 {
        b.drop_last()
    } else {
        b
    }
}

/// `file: <key> pkg: <value>` and a newline, both without their NUL.
pub open spec fn line(k: Seq<u8>, v: Seq<u8>) -> Seq<u8> {
    let file = seq![102u8, 105, 108, 101, 58, 32];
    let pkg = seq![32u8, 112, 107, 103, 58, 32];
    let newline = seq![10u8];
    file + trimmed(k) + pkg + trimmed(v) + newline
}

/// One NUL at the end is dropped, and nothing else.
pub proof fn law_trimmed(b: Seq<u8>)
    ensures
        trimmed(b.push(0)) == b,
        b.len() == 0 || b[b.len() - 1] != 0 ==> trimmed(b) == b,
{
    assert(b.push(0).drop_last() =~= b);
}

/// The bytes of a text of ASCII characters.
pub open spec fn ascii(text: Seq<char>) -> Seq<u8> {
    Seq::new(text.len(), |i: int| text[i] as u8)
}

/// The line for a path and a package, both stored with a NUL, reads
/// `file: <path> pkg: <package>`.
pub proof fn law_line(path: Seq<u8>, pkg: Seq<u8>)
    ensures
        line(path.push(0), pkg.push(0)) == ascii("file: "@) + path + ascii(" pkg: "@) + pkg
            + ascii("\n"@),
{
    reveal_strlit("file: ");
    reveal_strlit(" pkg: ");
    reveal_strlit("\n");
    law_trimmed(path);
    law_trimmed(pkg);
    assert(ascii("file: "@) =~= seq![102u8, 105, 108, 101, 58, 32]);
    assert(ascii(" pkg: "@) =~= seq![32u8, 112, 107, 103, 58, 32]);
    assert(ascii("\n"@) =~= seq![10u8]);
}

/// Drop a trailing NUL.
pub fn trim_nul(bytes: &[u8]) -> (r: &[u8])
    ensures
        r@ == trimmed(bytes@),
{
    let n = bytes.len();
    if n > 0 && bytes[n - 1] == 0 {
        let r = slice_subrange(bytes, 0, n - 1);
        assert(r@ =~= bytes@.drop_last());
        r
    } else {
        bytes
    }
}

/// Append the line for a pair to `out`.
pub fn write_pair(out: &mut Vec<u8>, key: &[u8], val: &[u8])
    ensures
        final(out)@ == old(out)@ + line(key@, val@),
{
    // "file: " and " pkg: "
    let file: [u8; 6] = [102, 105, 108, 101, 58, 32];
    let pkg: [u8; 6] = [32, 112, 107, 103, 58, 32];
    out.extend_from_slice(&file);
    out.extend_from_slice(trim_nul(key));
    out.extend_from_slice(&pkg);
    out.extend_from_slice(trim_nul(val));
    out.push(10);
    assert(out@ =~= old(out)@ + line(key@, val@));
}

/// The key under which a path is stored: its bytes and a NUL.
pub fn path_key(path: &[u8]) -> (r: Vec<u8>)
    ensures
        r@ == path@.push(0),
{
    let mut key = slice_to_vec(path);
    key.push(0);
    key
}

} // verus!
