//! Extension matching: which paths name a workspace file of interest.
//!
//! A path matches when the final component of the path has an extension — a
//! final `.` with the component's tail after it — and that tail, folded to
//! ASCII lowercase, is `meta` or `xml`.

use vstd::prelude::*;
use vstd::string::StrSliceExecFns;

verus! {

/// Character `c` folds to the ASCII lowercase letter `l`: it is `l` itself,
/// or the uppercase letter 32 codepoints below `l`.
pub open spec fn folds_to(c: char, l: char) -> bool {
    c == l || ('A' as int <= c as int && c as int <= 'Z' as int && c as int + 32 == l as int)
}

/// The extension `ext` is `meta` or `xml`, compared ASCII-case-insensitively.
pub open spec fn is_meta_extension(ext: Seq<char>) -> bool {
    ||| (ext.len() == 4 && folds_to(ext[0], 'm') && folds_to(ext[1], 'e') && folds_to(ext[2], 't')
        && folds_to(ext[3], 'a'))
    ||| (ext.len() == 3 && folds_to(ext[0], 'x') && folds_to(ext[1], 'm') && folds_to(ext[2], 'l'))
}

/// Position `d` holds the dot that starts the extension of `p`: a `.` in the
/// final path component with nothing after it but the extension itself.
pub open spec fn is_extension_start(p: Seq<char>, d: int) -> bool {
    &&& 0 <= d < p.len()
    &&& p[d] == '.'
    &&& forall|j: int| d < j < p.len() ==> p[j] != '.' && p[j] != '/'
}

/// The path names a file whose extension, folded to ASCII lowercase, is
/// `meta` or `xml`. A final component without a `.` has no extension and
/// never matches.
pub open spec fn is_meta_path(p: Seq<char>) -> bool {
    exists|d: int|
        #[trigger] is_extension_start(p, d) && is_meta_extension(
            p.subrange(d + 1, p.len() as int),
        )
}

/// Decides whether `c` folds to the lowercase letter `lo`, whose uppercase
/// form is `up`.
fn char_folds_to(c: char, lo: char, up: char) -> (r: bool)
    requires
        'a' as int <= lo as int <= 'z' as int,
        up as int + 32 == lo as int,
    ensures
        r == folds_to(c, lo),
{
    c == lo || c == up
}

/// Decides whether `path` names a `meta` or `xml` file, case-insensitively.
pub fn is_meta_file(path: &str) -> (r: bool)
    ensures
        r == is_meta_path(path@),
{
    let n = path.unicode_len();
    let mut i = n;
    while i > 0
        invariant
            i <= n,
            n == path@.len(),
            forall|j: int| i <= j < n ==> path@[j] != '.' && path@[j] != '/',
        decreases i,
    {
        let c = path.get_char(i - 1);
        if c == '.' {
            let ghost d = i - 1;
            assert(is_extension_start(path@, d as int));
            let r = extension_matches(path, i, n);
            proof {
                if r {
                    assert(is_meta_path(path@));
                } else {
                    assert forall|e: int| !(#[trigger] is_extension_start(path@, e)
                        && is_meta_extension(path@.subrange(e + 1, n as int))) by {
                        if is_extension_start(path@, e) {
                            if e < d {
                                assert(path@[d as int] == '.');
                                assert(false);
                            } else if e > d {
                                assert(path@[e] != '.');
                                assert(false);
                            }
                        }
                    }
                }
            }
            return r;
        }
        if c == '/' {
            proof {
                let ghost s = i - 1;
                assert forall|e: int| !(#[trigger] is_extension_start(path@, e)
                    && is_meta_extension(path@.subrange(e + 1, n as int))) by {
                    if is_extension_start(path@, e) {
                        if e < s {
                            assert(path@[s as int] != '/');
                            assert(false);
                        } else if e == s {
                            assert(false);
                        } else {
                            assert(path@[e] != '.');
                            assert(false);
                        }
                    }
                }
            }
            return false;
        }
        i = i - 1;
    }
    proof {
        assert forall|e: int| !(#[trigger] is_extension_start(path@, e)
            && is_meta_extension(path@.subrange(e + 1, n as int))) by {
            if is_extension_start(path@, e) {
                assert(path@[e] != '.');
                assert(false);
            }
        }
    }
    false
}

/// Decides whether the tail of `path` from position `start` is `meta` or
/// `xml` up to ASCII case.
fn extension_matches(path: &str, start: usize, n: usize) -> (r: bool)
    requires
        start <= n,
        n == path@.len(),
    ensures
        r == is_meta_extension(path@.subrange(start as int, n as int)),
{
    let ghost ext = path@.subrange(start as int, n as int);
    if n - start == 4 {
        let r = char_folds_to(path.get_char(start), 'm', 'M')
            && char_folds_to(path.get_char(start + 1), 'e', 'E')
            && char_folds_to(path.get_char(start + 2), 't', 'T')
            && char_folds_to(path.get_char(start + 3), 'a', 'A');
        proof {
            assert(ext.len() == 4);
            assert(ext[0] == path@[start as int]);
            assert(ext[1] == path@[start + 1]);
            assert(ext[2] == path@[start + 2]);
            assert(ext[3] == path@[start + 3]);
        }
        r
    } else if n - start == 3 {
        let r = char_folds_to(path.get_char(start), 'x', 'X')
            && char_folds_to(path.get_char(start + 1), 'm', 'M')
            && char_folds_to(path.get_char(start + 2), 'l', 'L');
        proof {
            assert(ext.len() == 3);
            assert(ext[0] == path@[start as int]);
            assert(ext[1] == path@[start + 1]);
            assert(ext[2] == path@[start + 2]);
        }
        r
    } else {
        false
    }
}

} // verus!
