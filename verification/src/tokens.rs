//! The token normalizer: expands a free-text app/path list into the
//! ordered sets of match tokens a platform's process matcher compares
//! against. Entries are trimmed and empty ones discarded; an entry with a
//! path separator is a path, anything else a process name. On Windows the
//! matcher is case- and extension-sensitive, so the lower-case variant is
//! added, and for names the `.exe`-stripped or `.exe`-appended variant.

use vstd::prelude::*;
use vstd::string::StrSliceExecFns;
use vstd::string::StringExecFns;
use crate::policy::Platform;
use crate::strings::contains_char;
use crate::strings::ends_with;
use crate::strings::is_separator;
use crate::strings::lower_seq;
use crate::strings::str_ends_with;
use crate::strings::str_eq;
use crate::strings::trim;
use crate::strings::trimmed;
use crate::strings::views_of;

verus! {

/// Whether the string holds a path separator.
pub open spec fn has_separator(s: Seq<char>) -> bool {
    exists|i: int| 0 <= i < s.len() && is_separator(s[i])
}

/// Whether the token names a path rather than a process.
pub fn is_path_token(s: &str) -> (r: bool)
    ensures
        r == has_separator(s@),
{
    let slash = contains_char(s, '/');
    let back = contains_char(s, '\\');
    proof {
        if slash {
            let i = choose|i: int| 0 <= i < s@.len() && s@[i] == '/';
            assert(is_separator(s@[i]));
        }
        if back {
            let i = choose|i: int| 0 <= i < s@.len() && s@[i] == '\\';
            assert(is_separator(s@[i]));
        }
        if has_separator(s@) {
            let i = choose|i: int| 0 <= i < s@.len() && is_separator(s@[i]);
            assert(s@[i] == '/' || s@[i] == '\\');
        }
    }
    slash || back
}

/// The match-token variants of a process-name token.
pub open spec fn name_variants(t: Seq<char>, platform: Platform) -> Seq<Seq<char>> {
    if platform is Windows {
        let l = lower_seq(t);
        (seq![t] + if l != t {
            seq![l]
        } else {
            Seq::empty()
        }) + if ends_with(l, ".exe"@) {
            seq![l.subrange(0, l.len() - ".exe"@.len())]
        } else if !t.contains('.') {
            seq![l + ".exe"@]
        } else {
            Seq::empty()
        }
    } else {
        seq![t]
    }
}

/// The match-token variants of a path token.
pub open spec fn path_variants(t: Seq<char>, platform: Platform) -> Seq<Seq<char>> {
    if platform is Windows {
        let l = lower_seq(t);
        seq![t] + if l != t {
            seq![l]
        } else {
            Seq::empty()
        }
    } else {
        seq![t]
    }
}

/// `x` added to the ordered set `acc` unless already present.
pub open spec fn add_unique(acc: Seq<Seq<char>>, x: Seq<char>) -> Seq<Seq<char>> {
    if acc.contains(x) {
        acc
    } else {
        acc.push(x)
    }
}

/// Every element of `xs` added to the ordered set `acc`, in order.
pub open spec fn add_all_unique(acc: Seq<Seq<char>>, xs: Seq<Seq<char>>) -> Seq<Seq<char>>
    decreases xs.len(),
{
    if xs.len() == 0 {
        acc
    } else {
        add_unique(add_all_unique(acc, xs.drop_last()), xs.last())
    }
}

/// The ordered set of name tokens of the list.
pub open spec fn collect_names(items: Seq<Seq<char>>, platform: Platform) -> Seq<Seq<char>>
    decreases items.len(),
{
    if items.len() == 0 {
        Seq::empty()
    } else {
        let prev = collect_names(items.drop_last(), platform);
        let t = trimmed(items.last());
        if t.len() == 0 || has_separator(t) {
            prev
        } else {
            add_all_unique(prev, name_variants(t, platform))
        }
    }
}

/// The ordered set of path tokens of the list.
pub open spec fn collect_paths(items: Seq<Seq<char>>, platform: Platform) -> Seq<Seq<char>>
    decreases items.len(),
{
    if items.len() == 0 {
        Seq::empty()
    } else {
        let prev = collect_paths(items.drop_last(), platform);
        let t = trimmed(items.last());
        if t.len() == 0 || !has_separator(t) {
            prev
        } else {
            add_all_unique(prev, path_variants(t, platform))
        }
    }
}

/// The ordered set of the list's entries, trimmed, empties dropped.
pub open spec fn clean_list(items: Seq<Seq<char>>) -> Seq<Seq<char>>
    decreases items.len(),
{
    if items.len() == 0 {
        Seq::empty()
    } else {
        let prev = clean_list(items.drop_last());
        let t = trimmed(items.last());
        if t.len() == 0 {
            prev
        } else {
            add_unique(prev, t)
        }
    }
}

/// Trims the list's entries and drops empty and repeated ones.
pub fn clean_list_exec(items: &Vec<String>) -> (r: Vec<String>)
    ensures
        views_of(r@) == clean_list(views_of(items@)),
{
    let ghost all = views_of(items@);
    let mut out: Vec<String> = Vec::new();
    let mut i: usize = 0;
    proof {
        assert(all.subrange(0, 0) =~= Seq::<Seq<char>>::empty());
    }
    while i < items.len()
        invariant
            i <= items@.len(),
            all == views_of(items@),
            views_of(out@) == clean_list(all.subrange(0, i as int)),
        decreases items@.len() - i,
    {
        let t = trim(items[i].as_str());
        proof {
            assert(all[i as int] == items@[i as int]@);
            assert(all.subrange(0, i + 1).drop_last() =~= all.subrange(0, i as int));
            assert(all.subrange(0, i + 1).last() == all[i as int]);
        }
        if t.unicode_len() > 0 {
            push_unique(&mut out, t);
        }
        i = i + 1;
    }
    proof {
        assert(all.subrange(0, all.len() as int) =~= all);
    }
    out
}

/// Appends `tok` unless an equal string is already listed.
fn push_unique(list: &mut Vec<String>, tok: String)
    ensures
        views_of(final(list)@) == add_unique(views_of(old(list)@), tok@),
{
    let present = crate::strings::list_contains_str(list, tok.as_str());
    if !present {
        let ghost before = list@;
        list.push(tok);
        proof {
            assert(views_of(list@) =~= views_of(before).push(list@.last()@));
        }
    }
}

/// Appends each variant in order, without duplicating a listed string.
fn push_all_unique(list: &mut Vec<String>, vars: Vec<String>)
    ensures
        views_of(final(list)@) == add_all_unique(views_of(old(list)@), views_of(vars@)),
{
    let ghost start = views_of(old(list)@);
    let ghost all = views_of(vars@);
    let mut rest = vars;
    proof {
        assert(rest@ =~= rest@.subrange(0, rest@.len() as int));
        assert(all.subrange(0, 0) =~= Seq::<Seq<char>>::empty());
        assert(add_all_unique(start, all.subrange(0, 0)) == start);
        assert(views_of(rest@) =~= all.subrange(all.len() - rest@.len(), all.len() as int));
    }
    while rest.len() > 0
        invariant
            rest@.len() <= all.len(),
            views_of(rest@) =~= all.subrange(all.len() - rest@.len(), all.len() as int),
            views_of(list@) == add_all_unique(start, all.subrange(0, all.len() - rest@.len())),
        decreases rest@.len(),
    {
        let ghost pre = rest@;
        let ghost done: int = all.len() - pre.len();
        let tok = rest.remove(0);
        proof {
            assert(views_of(pre)[0] == pre[0]@);
            assert(tok@ == all[done]);
            assert(rest@ =~= pre.subrange(1, pre.len() as int));
            assert forall|j: int| 0 <= j < rest@.len() implies #[trigger] views_of(rest@)[j]
                == all[done + 1 + j] by {
                assert(rest@[j] == pre[j + 1]);
                assert(views_of(pre)[j + 1] == pre[j + 1]@);
            }
            assert(views_of(rest@) =~= all.subrange(done + 1, all.len() as int));
            assert(all.subrange(0, done + 1) =~= all.subrange(0, done).push(all[done]));
            assert(all.subrange(0, done + 1).drop_last() =~= all.subrange(0, done));
        }
        push_unique(list, tok);
    }
    proof {
        assert(all.subrange(0, all.len() as int) =~= all);
    }
}

/// The Windows-matcher variants of one name token, most specific first.
fn name_variant_list(t: String, platform: Platform) -> (r: Vec<String>)
    ensures
        views_of(r@) == name_variants(t@, platform),
{
    let mut out: Vec<String> = Vec::new();
    if platform == Platform::Windows {
        let low = crate::strings::ascii_lower(t.as_str());
        let different = !str_eq(low.as_str(), t.as_str());
        let ends_exe = str_ends_with(low.as_str(), ".exe");
        let has_dot = contains_char(t.as_str(), '.');
        let ghost tv = t@;
        let ghost lv = low@;
        out.push(t);
        proof {
            assert(views_of(out@) =~= seq![tv]);
        }
        if different {
            let ghost before = out@;
            out.push(low.clone());
            proof {
                assert(views_of(out@) =~= views_of(before).push(lv));
                assert(views_of(out@) =~= seq![tv] + seq![lv]);
            }
        } else {
            proof {
                assert(seq![tv] + Seq::<Seq<char>>::empty() =~= seq![tv]);
            }
        }
        let ghost base = views_of(out@);
        if ends_exe {
            proof {
                reveal_strlit(".exe");
            }
            let lowlen = low.unicode_len();
            let ghost before = out@;
            out.push(low.as_str().substring_char(0, lowlen - 4).to_owned());
            proof {
                assert(views_of(out@) =~= views_of(before).push(
                    lv.subrange(0, lv.len() - ".exe"@.len()),
                ));
                assert(views_of(out@) =~= base + seq![
                    lv.subrange(0, lv.len() - ".exe"@.len()),
                ]);
            }
        } else if !has_dot {
            let ghost before = out@;
            out.push(low.concat(".exe"));
            proof {
                assert(views_of(out@) =~= views_of(before).push(lv + ".exe"@));
                assert(views_of(out@) =~= base + seq![lv + ".exe"@]);
            }
        } else {
            proof {
                assert(base + Seq::<Seq<char>>::empty() =~= base);
            }
        }
    } else {
        let ghost tv = t@;
        out.push(t);
        proof {
            assert(views_of(out@) =~= seq![tv]);
        }
    }
    out
}

/// The variants of one path token.
fn path_variant_list(t: String, platform: Platform) -> (r: Vec<String>)
    ensures
        views_of(r@) == path_variants(t@, platform),
{
    let mut out: Vec<String> = Vec::new();
    if platform == Platform::Windows {
        let low = crate::strings::ascii_lower(t.as_str());
        let different = !str_eq(low.as_str(), t.as_str());
        let ghost tv = t@;
        let ghost lv = low@;
        out.push(t);
        proof {
            assert(views_of(out@) =~= seq![tv]);
        }
        if different {
            let ghost before = out@;
            out.push(low);
            proof {
                assert(views_of(out@) =~= views_of(before).push(lv));
                assert(views_of(out@) =~= seq![tv] + seq![lv]);
            }
        } else {
            proof {
                assert(seq![tv] + Seq::<Seq<char>>::empty() =~= seq![tv]);
            }
        }
    } else {
        let ghost tv = t@;
        out.push(t);
        proof {
            assert(views_of(out@) =~= seq![tv]);
        }
    }
    out
}

/// Expands an app list into its name tokens and path tokens.
pub fn normalize_tokens(items: &Vec<String>, platform: Platform) -> (r: (
    Vec<String>,
    Vec<String>,
))
    ensures
        views_of(r.0@) == collect_names(views_of(items@), platform),
        views_of(r.1@) == collect_paths(views_of(items@), platform),
{
    let ghost all = views_of(items@);
    let mut names: Vec<String> = Vec::new();
    let mut paths: Vec<String> = Vec::new();
    let mut i: usize = 0;
    proof {
        assert(all.subrange(0, 0) =~= Seq::<Seq<char>>::empty());
    }
    while i < items.len()
        invariant
            i <= items@.len(),
            all == views_of(items@),
            views_of(names@) == collect_names(all.subrange(0, i as int), platform),
            views_of(paths@) == collect_paths(all.subrange(0, i as int), platform),
        decreases items@.len() - i,
    {
        let t = trim(items[i].as_str());
        let ghost tv = trimmed(all[i as int]);
        proof {
            assert(all[i as int] == items@[i as int]@);
            assert(t@ == tv);
            assert(all.subrange(0, i + 1).drop_last() =~= all.subrange(0, i as int));
            assert(all.subrange(0, i + 1).last() == all[i as int]);
        }
        if t.unicode_len() == 0 {
        } else if is_path_token(t.as_str()) {
            let vars = path_variant_list(t, platform);
            push_all_unique(&mut paths, vars);
        } else {
            let vars = name_variant_list(t, platform);
            push_all_unique(&mut names, vars);
        }
        i = i + 1;
    }
    proof {
        assert(all.subrange(0, all.len() as int) =~= all);
    }
    (names, paths)
}

} // verus!
