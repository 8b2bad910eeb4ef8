//! The replacement-set loader's pure core.
//!
//! The caller walks a directory and hands over, for every regular file whose
//! name passes [`txt_stem`], the stem and the file's lines. Building the
//! table from those pairs — trimming each line, wrapping each stem as
//! `%stem%`, skipping files without lines, rejecting an empty result — is
//! done and specified here.

use vstd::prelude::*;

use crate::text::{strip_suffix_str, trim_of, trim_str};
use vstd::string::StringExecFns;

verus! {

/// The one way loading fails: no usable replacement file was found, because
/// the directory was missing, empty, or held no non-empty `.txt` file.
#[derive(Debug, PartialEq, Eq, Structural)]
pub enum LoadError {
    NoReplacementsFound,
}

/// The file-name suffix that marks a replacement file.
pub open spec fn txt_suffix() -> Seq<char> {
    ".txt"@
}

/// The name is a stem of at least one character followed by `.txt`.
pub open spec fn is_txt_name(name: Seq<char>) -> bool {
    name.len() > txt_suffix().len() && name.skip(name.len() - txt_suffix().len()) == txt_suffix()
}

/// The stem: the name without its suffix.
pub open spec fn txt_stem_of(name: Seq<char>) -> Seq<char> {
    name.take(name.len() - txt_suffix().len())
}

/// The table entry one file contributes: its stem wrapped in percent signs,
/// over its lines with surrounding whitespace trimmed. Lines that trim to
/// nothing are kept.
pub open spec fn rep_entry(stem: Seq<char>, lines: Seq<Seq<char>>) -> (Seq<char>, Seq<Seq<char>>) {
    ("%"@ + stem + "%"@, lines.map_values(|l: Seq<char>| trim_of(l)))
}

/// The replacement table built from the files, in their given order; a file
/// with no lines at all contributes no entry.
pub open spec fn built_reps(files: Seq<(Seq<char>, Seq<Seq<char>>)>) -> Seq<
    (Seq<char>, Seq<Seq<char>>),
>
    decreases files.len(),
{
    if files.len() == 0 {
        Seq::empty()
    } else {
        built_reps(files.drop_last()) + (if files.last().1.len() > 0 {
            seq![rep_entry(files.last().0, files.last().1)]
        } else {
            Seq::empty()
        })
    }
}

/// Every key of a built table is a token wrapped in percent signs: it starts
/// and ends with `%` and is at least two characters long. In particular no
/// key is empty, so the expander never skips a loaded entry.
pub proof fn lemma_built_reps_keys(files: Seq<(Seq<char>, Seq<Seq<char>>)>)
    ensures
        forall|i: int| 0 <= i < built_reps(files).len() ==> (#[trigger] built_reps(
            files,
        )[i].0).len() >= 2 && built_reps(files)[i].0.first() == '%' && built_reps(
            files,
        )[i].0.last() == '%',
    decreases files.len(),
{
    reveal_strlit("%");
    if files.len() > 0 {
        lemma_built_reps_keys(files.drop_last());
        let pre = built_reps(files.drop_last());
        let all = built_reps(files);
        if files.last().1.len() > 0 {
            let key = rep_entry(files.last().0, files.last().1).0;
            assert(key.len() == files.last().0.len() + 2);
            assert(key.first() == '%');
            assert(key.last() == '%');
            assert forall|i: int| 0 <= i < all.len() implies (#[trigger] all[i].0).len() >= 2
                && all[i].0.first() == '%' && all[i].0.last() == '%' by {
                if i < pre.len() {
                    assert(all[i] == pre[i]);
                } else {
                    assert(all[i].0 == key);
                }
            }
        } else {
            assert(all =~= pre);
        }
    }
}

/// The stem of a directory entry's name, when the name marks a replacement
/// file: at least one character followed by `.txt`. Anything else — another
/// extension, a bare `.txt` — is no replacement file.
pub fn txt_stem(name: &str) -> (r: Option<String>)
    ensures
        match r {
            Some(stem) => is_txt_name(name@) && stem@ == txt_stem_of(name@),
            None => !is_txt_name(name@),
        },
{
    match strip_suffix_str(name, ".txt") {
        Some(stem) => {
            if stem.as_str().is_empty() {
                proof {
                    assert(name@ =~= txt_suffix());
                }
                None
            } else {
                proof {
                    assert(name@.skip(name@.len() - txt_suffix().len()) =~= txt_suffix());
                    assert(stem@ =~= txt_stem_of(name@));
                }
                Some(stem)
            }
        },
        None => {
            proof {
                if is_txt_name(name@) {
                    assert(name@ == txt_stem_of(name@) + txt_suffix()) by {
                        assert(name@ =~= txt_stem_of(name@) + txt_suffix());
                    }
                }
            }
            None
        },
    }
}

/// Build the replacement table from `(stem, lines)` pairs, one per
/// replacement file, in directory order.
///
/// Every line is trimmed; a file without lines contributes no entry; when no
/// entry remains the load fails, and that is the only failure.
pub fn build_replacements(files: &Vec<(String, Vec<String>)>) -> (r: Result<
    Vec<(String, Vec<String>)>,
    LoadError,
>)
    ensures
        match r {
            Ok(m) => m.deep_view() == built_reps(files.deep_view()) && m.deep_view().len() > 0,
            Err(e) => built_reps(files.deep_view()).len() == 0 && e
                == LoadError::NoReplacementsFound,
        },
{
    let ghost fv = files.deep_view();
    let mut out: Vec<(String, Vec<String>)> = Vec::new();
    let mut k: usize = 0;
    while k < files.len()
        invariant
            fv == files.deep_view(),
            fv.len() == files@.len(),
            k <= files@.len(),
            out.deep_view() == built_reps(fv.take(k as int)),
        decreases files.len() - k,
    {
        proof {
            assert(fv[k as int] == files@[k as int].deep_view());
        }
        let lines = &files[k].1;
        let mut trimmed: Vec<String> = Vec::new();
        let mut j: usize = 0;
        while j < lines.len()
            invariant
                fv == files.deep_view(),
                fv.len() == files@.len(),
                k < files@.len(),
                fv[k as int] == files@[k as int].deep_view(),
                *lines == files@[k as int].1,
                j <= lines@.len(),
                trimmed@.len() == j,
                forall|i: int| 0 <= i < j ==> #[trigger] trimmed@[i]@ == trim_of(lines@[i]@),
            decreases lines@.len() - j,
        {
            trimmed.push(trim_str(lines[j].as_str()));
            j += 1;
        }
        let ghost pre = out.deep_view();
        if trimmed.len() > 0 {
            let ghost td = trimmed.deep_view();
            proof {
                assert(td =~= fv[k as int].1.map_values(|l: Seq<char>| trim_of(l)));
            }
            let mut key = "%".to_owned();
            key.append(files[k].0.as_str());
            key.append("%");
            let ghost kv = key@;
            out.push((key, trimmed));
            proof {
                assert((kv, td) == rep_entry(fv[k as int].0, fv[k as int].1));
                assert(out.deep_view() =~= pre.push((kv, td)));
                assert(pre.push((kv, td)) =~= pre + seq![rep_entry(fv[k as int].0, fv[k as int].1)]);
            }
        }
        proof {
            assert(fv.take(k + 1).drop_last() =~= fv.take(k as int));
            assert(fv.take(k + 1).last() == fv[k as int]);
            if files@[k as int].1.len() == 0 {
                assert(out.deep_view() =~= built_reps(fv.take(k + 1)));
            }
        }
        k += 1;
    }
    proof {
        assert(fv.take(fv.len() as int) =~= fv);
    }
    if out.len() == 0 {
        proof {
            assert(out.deep_view().len() == 0);
        }
        Err(LoadError::NoReplacementsFound)
    } else {
        proof {
            assert(out.deep_view().len() > 0);
        }
        Ok(out)
    }
}

} // verus!
