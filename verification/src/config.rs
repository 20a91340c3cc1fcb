//! Reading the deployment configuration: the extra mutable directories
//! and the user-repository switch.
//!
//! The configuration file is ini-style text; parsing it is delegated to
//! the configparser crate behind one trusted wrapper, and everything
//! derived from the parsed value — splitting the directory lists,
//! interpreting the switch — is verified here.

use vstd::prelude::*;
use crate::engine::MutableDirSpec;
use crate::Error;

verus! {

/// What configparser yields for `key` under `section` in `text`: a
/// function of the three arguments alone.
pub uninterp spec fn ini_lookup(text: Seq<u8>, section: Seq<char>, key: Seq<char>) -> Option<
    Seq<u8>,
>;

/// Relies on configparser's `Ini::read` and `Ini::get`: `read` parses
/// the text it is handed and `get` returns the stored value for the
/// section and key, so the result depends on the three arguments alone.
#[verifier::external_body]
fn ini_get_bytes(text: &Vec<u8>, section: &str, key: &str) -> (r: Option<Vec<u8>>)
    ensures
        match r {
            Some(v) => ini_lookup(text@, section@, key@) == Some(v@),
            None => ini_lookup(text@, section@, key@) is None,
        },
{
    let mut ini = configparser::ini::Ini::new();
    let owned = String::from_utf8_lossy(text.as_slice()).into_owned();
    if ini.read(owned).is_err() {
        return None;
    }
    ini.get(section, key).map(String::into_bytes)
}

/// The first comma at or after `j`, or the end of `s`.
pub open spec fn comma_from(s: Seq<u8>, j: int) -> int
    decreases s.len() - j when 0 <= j <= s.len()
{
    if j < s.len() && s[j] != 44 {
        comma_from(s, j + 1)
    } else {
        j
    }
}

pub proof fn lemma_comma_from(s: Seq<u8>, j: int)
    requires
        0 <= j <= s.len(),
    ensures
        j <= comma_from(s, j) <= s.len(),
        forall|m: int| j <= m < comma_from(s, j) ==> (#[trigger] s[m]) != 44,
        comma_from(s, j) < s.len() ==> s[comma_from(s, j)] == 44,
    decreases s.len() - j,
{
    if j < s.len() && s[j] != 44 {
        lemma_comma_from(s, j + 1);
    }
}

/// The non-empty comma-separated entries of `s` from position `j` on.
pub open spec fn split_from(s: Seq<u8>, j: int) -> Seq<Seq<u8>>
    decreases s.len() - j when 0 <= j <= s.len() via split_from_dec
{
    let c = comma_from(s, j);
    let head = s.subrange(j, c);
    let rest = if c < s.len() {
        split_from(s, c + 1)
    } else {
        Seq::empty()
    };
    if head.len() == 0 {
        rest
    } else {
        seq![head] + rest
    }
}

#[via_fn]
proof fn split_from_dec(s: Seq<u8>, j: int) {
    lemma_comma_from(s, j);
}

/// The non-empty comma-separated entries of `s`, in order.
pub open spec fn spec_split_dirs(s: Seq<u8>) -> Seq<Seq<u8>> {
    split_from(s, 0)
}

/// The entries of a piece list, as byte sequences.
pub open spec fn pieces_view(v: Seq<Vec<u8>>) -> Seq<Seq<u8>> {
    Seq::new(v.len(), |i: int| v[i]@)
}

/// Splits a comma-separated byte string into its non-empty entries.
pub fn split_dirs(s: &Vec<u8>) -> (r: Vec<Vec<u8>>)
    ensures
        pieces_view(r@) == spec_split_dirs(s@),
{
    let n = s.len();
    let mut out: Vec<Vec<u8>> = Vec::new();
    let mut j: usize = 0;
    proof {
        lemma_comma_from(s@, 0);
    }
    loop
        invariant
            0 <= j <= n,
            n == s@.len(),
            spec_split_dirs(s@) =~= pieces_view(out@) + split_from(s@, j as int),
        decreases n - j + 1,
    {
        proof {
            lemma_comma_from(s@, j as int);
        }
        let ghost c = comma_from(s@, j as int);
        let mut e: usize = j;
        while e < n && s[e] != 44
            invariant
                j <= e <= n,
                n == s@.len(),
                comma_from(s@, j as int) == comma_from(s@, e as int),
            decreases n - e,
        {
            proof {
                assert(comma_from(s@, e as int) == comma_from(s@, e as int + 1));
            }
            e = e + 1;
        }
        proof {
            assert(comma_from(s@, e as int) == e as int);
            assert(c == e as int);
        }
        if e > j {
            let mut piece: Vec<u8> = Vec::new();
            let mut m: usize = j;
            while m < e
                invariant
                    j <= m <= e <= n,
                    n == s@.len(),
                    piece@ =~= s@.subrange(j as int, m as int),
                decreases e - m,
            {
                piece.push(s[m]);
                proof {
                    assert(piece@ =~= s@.subrange(j as int, m as int + 1));
                }
                m = m + 1;
            }
            let ghost out0 = out@;
            out.push(piece);
            proof {
                assert(pieces_view(out@) =~= pieces_view(out0).push(s@.subrange(
                    j as int,
                    c,
                )));
                assert(split_from(s@, j as int) =~= seq![s@.subrange(j as int, c)] + (
                if c < s@.len() {
                    split_from(s@, c + 1)
                } else {
                    Seq::<Seq<u8>>::empty()
                }));
                assert(pieces_view(out@) + (if c < s@.len() {
                    split_from(s@, c + 1)
                } else {
                    Seq::<Seq<u8>>::empty()
                }) =~= pieces_view(out0) + split_from(s@, j as int));
            }
        } else {
            proof {
                assert(s@.subrange(j as int, c).len() == 0);
                assert(split_from(s@, j as int) == (if c < s@.len() {
                    split_from(s@, c + 1)
                } else {
                    Seq::<Seq<u8>>::empty()
                }));
            }
        }
        if e == n {
            proof {
                assert(pieces_view(out@) + Seq::<Seq<u8>>::empty() =~= pieces_view(out@));
            }
            return out;
        }
        j = e + 1;
    }
}

/// The configuration section and keys that the engine reads.
pub open spec fn config_section() -> Seq<char> {
    "default"@
}

/// The configured extra mutable directories: the non-empty entries of
/// the `mutable_dirs` and `mutable_dirs_shared` values, absent values
/// reading as empty lists.
pub fn read_mutable_dirs(text: &Vec<u8>) -> (r: MutableDirSpec)
    ensures
        pieces_view(r.dirs@) == match ini_lookup(text@, config_section(), "mutable_dirs"@) {
            Some(v) => spec_split_dirs(v),
            None => Seq::<Seq<u8>>::empty(),
        },
        pieces_view(r.shared@) == match ini_lookup(
            text@,
            config_section(),
            "mutable_dirs_shared"@,
        ) {
            Some(v) => spec_split_dirs(v),
            None => Seq::<Seq<u8>>::empty(),
        },
{
    let dirs = match ini_get_bytes(text, "default", "mutable_dirs") {
        Some(v) => split_dirs(&v),
        None => Vec::new(),
    };
    let shared = match ini_get_bytes(text, "default", "mutable_dirs_shared") {
        Some(v) => split_dirs(&v),
        None => Vec::new(),
    };
    proof {
        assert(pieces_view(Seq::<Vec<u8>>::empty()) =~= Seq::<Seq<u8>>::empty());
    }
    MutableDirSpec { dirs, shared }
}

/// The value `True` as bytes.
pub open spec fn true_bytes() -> Seq<u8> {
    seq![84u8, 114u8, 117u8, 101u8]
}

/// The value `False` as bytes.
pub open spec fn false_bytes() -> Seq<u8> {
    seq![70u8, 97u8, 108u8, 115u8, 101u8]
}

/// Whether the configuration enables the user package repository: the
/// `aur` value must be exactly `True` or `False`; anything else, or an
/// unreadable configuration, is refused.
pub fn aur_check(text: &Vec<u8>) -> (r: Result<bool, Error>)
    ensures
        match r {
            Ok(b) => ini_lookup(text@, config_section(), "aur"@) == Some(
                if b {
                    true_bytes()
                } else {
                    false_bytes()
                },
            ),
            Err(e) => {
                &&& e == (Error::Io { id: 0 })
                &&& match ini_lookup(text@, config_section(), "aur"@) {
                    Some(v) => v != true_bytes() && v != false_bytes(),
                    None => true,
                }
            },
        },
{
    let v = match ini_get_bytes(text, "default", "aur") {
        Some(v) => v,
        None => {
            return Err(Error::Io { id: 0 });
        },
    };
    if v.len() == 4 && v[0] == 84 && v[1] == 114 && v[2] == 117 && v[3] == 101 {
        proof {
            assert(v@ =~= true_bytes());
        }
        return Ok(true);
    }
    if v.len() == 5 && v[0] == 70 && v[1] == 97 && v[2] == 108 && v[3] == 115 && v[4] == 101 {
        proof {
            assert(v@ =~= false_bytes());
        }
        return Ok(false);
    }
    proof {
        if v@ == true_bytes() {
            assert(v@.len() == 4 && v@[0] == 84 && v@[1] == 114 && v@[2] == 117 && v@[3] == 101);
        }
        if v@ == false_bytes() {
            assert(v@.len() == 5);
        }
    }
    Err(Error::Io { id: 0 })
}

} // verus!
