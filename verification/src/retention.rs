//! The retention plan: which log files to delete after a rotation.
//!
//! Given a directory listing, the plan keeps the `max_count` log files
//! with the greatest (most recent) dates and deletes the rest.  Because
//! the date block of a log-file name is fixed-width and zero-padded,
//! sorting the eight-digit codes numerically is the same as sorting the
//! names lexicographically, so the plan works entirely on codes and
//! rebuilds the doomed names from them.
//!
//! Only names that match the appender's own file-name grammar are ever
//! planned for deletion; everything else in the directory is untouched.

use vstd::prelude::*;

use crate::filename::filename_for_code;
use crate::filename::is_log_file;
use crate::filename::is_log_name;
use crate::filename::lemma_log_name_parse;
use crate::filename::lemma_log_name_round_trip;
use crate::filename::log_name_code;
use crate::filename::name_code;
use crate::filename::spec_log_name;

verus! {

/// The views of a sequence of strings.
pub open spec fn seq_views(s: Seq<String>) -> Seq<Seq<char>> {
    s.map_values(|x: String| x@)
}

/// Ascending order on a sequence of codes.
pub open spec fn codes_sorted(s: Seq<u32>) -> bool {
    forall|a: int, b: int| 0 <= a < b < s.len() ==> s[a] <= s[b]
}

/// The codes of the listing entries that match the log-file grammar for
/// `prefix`, in listing order.
pub open spec fn matching_codes(names: Seq<Seq<char>>, prefix: Seq<char>) -> Seq<u32>
    decreases names.len(),
{
    if names.len() == 0 {
        Seq::empty()
    } else {
        let rest = matching_codes(names.drop_last(), prefix);
        if is_log_name(names.last(), prefix) {
            rest.push(name_code(names.last(), prefix) as u32)
        } else {
            rest
        }
    }
}

/// How many listing entries match the log-file grammar.
pub open spec fn matching_count(names: Seq<Seq<char>>, prefix: Seq<char>) -> int {
    matching_codes(names, prefix).len() as int
}

/// Inserts a code into a sorted sequence, after every element that is
/// not larger.
pub open spec fn insert_code(s: Seq<u32>, x: u32) -> Seq<u32>
    decreases s.len(),
{
    if s.len() == 0 {
        seq![x]
    } else if x < s.first() {
        seq![x] + s
    } else {
        seq![s.first()] + insert_code(s.drop_first(), x)
    }
}

/// The sequence of codes rearranged into ascending order.
pub open spec fn sorted_codes(s: Seq<u32>) -> Seq<u32>
    decreases s.len(),
{
    if s.len() == 0 {
        Seq::empty()
    } else {
        insert_code(sorted_codes(s.drop_last()), s.last())
    }
}

/// The matching codes of a listing in ascending (chronological) order.
pub open spec fn sorted_matching_codes(names: Seq<Seq<char>>, prefix: Seq<char>) -> Seq<u32> {
    sorted_codes(matching_codes(names, prefix))
}

/// The codes of the files the retention pass deletes: all but the
/// `max_count` greatest matching codes, oldest first.
pub open spec fn victim_codes(names: Seq<Seq<char>>, prefix: Seq<char>, max_count: int) -> Seq<
    u32,
> {
    let sorted = sorted_matching_codes(names, prefix);
    if sorted.len() <= max_count {
        Seq::empty()
    } else {
        sorted.take(sorted.len() - max_count)
    }
}

/// The names of the files the retention pass deletes.
pub open spec fn victim_names(names: Seq<Seq<char>>, prefix: Seq<char>, max_count: int) -> Seq<
    Seq<char>,
> {
    victim_codes(names, prefix, max_count).map_values(|c: u32| spec_log_name(prefix, c as int))
}

proof fn lemma_insert_code_props(s: Seq<u32>, x: u32)
    requires
        codes_sorted(s),
    ensures
        codes_sorted(insert_code(s, x)),
        insert_code(s, x).len() == s.len() + 1,
        forall|y: u32| #[trigger] insert_code(s, x).contains(y) ==> (s.contains(y) || y == x),
    decreases s.len(),
{
    if s.len() == 0 {
        assert forall|y: u32| insert_code(s, x).contains(y) implies s.contains(y) || y == x by {
            let i = choose|i: int| 0 <= i < insert_code(s, x).len() && insert_code(s, x)[i] == y;
        }
    } else if x < s.first() {
        assert forall|y: u32| (seq![x] + s).contains(y) implies s.contains(y) || y == x by {
            let i = choose|i: int| 0 <= i < (seq![x] + s).len() && (seq![x] + s)[i] == y;
            if i > 0 {
                assert(s[i - 1] == y);
            }
        }
    } else {
        let t = s.drop_first();
        assert(codes_sorted(t)) by {
            assert(forall|i: int| 0 <= i < t.len() ==> t[i] == s[i + 1]);
        }
        lemma_insert_code_props(t, x);
        let r = seq![s.first()] + insert_code(t, x);
        assert(codes_sorted(r)) by {
            assert(forall|i: int| 0 <= i < insert_code(t, x).len() ==> r[i + 1] == insert_code(
                t,
                x,
            )[i]);
            assert forall|i: int| 1 <= i < r.len() implies s.first() <= r[i] by {
                assert(insert_code(t, x).contains(r[i])) by {
                    assert(insert_code(t, x)[i - 1] == r[i]);
                }
                if r[i] != x {
                    assert(t.contains(r[i]));
                    let j = choose|j: int| 0 <= j < t.len() && t[j] == r[i];
                    assert(s[j + 1] == r[i]);
                }
            }
        }
        assert forall|y: u32| r.contains(y) implies s.contains(y) || y == x by {
            let i = choose|i: int| 0 <= i < r.len() && r[i] == y;
            if i == 0 {
                assert(s[0] == y);
            } else {
                assert(insert_code(t, x)[i - 1] == y);
                assert(insert_code(t, x).contains(y));
                if y != x {
                    assert(t.contains(y));
                    let j = choose|j: int| 0 <= j < t.len() && t[j] == y;
                    assert(s[j + 1] == y);
                }
            }
        }
    }
}

/// Sorting yields an ascending sequence of the same length over the same
/// codes.
pub proof fn lemma_sorted_codes_props(s: Seq<u32>)
    ensures
        codes_sorted(sorted_codes(s)),
        sorted_codes(s).len() == s.len(),
        forall|y: u32| #[trigger] sorted_codes(s).contains(y) ==> s.contains(y),
    decreases s.len(),
{
    if s.len() > 0 {
        let t = s.drop_last();
        lemma_sorted_codes_props(t);
        lemma_insert_code_props(sorted_codes(t), s.last());
        assert forall|y: u32| sorted_codes(s).contains(y) implies s.contains(y) by {
            if t.contains(y) {
                let i = choose|i: int| 0 <= i < t.len() && t[i] == y;
                assert(s[i] == y);
            } else {
                assert(s[s.len() - 1] == y);
            }
        }
    }
}

/// Every matching code is an eight-digit number, and each one is the
/// code of some listing entry, which is exactly the name the code
/// rebuilds to.
proof fn lemma_matching_codes_membership(names: Seq<Seq<char>>, prefix: Seq<char>)
    ensures
        forall|i: int|
            0 <= i < matching_codes(names, prefix).len() ==> #[trigger] matching_codes(
                names,
                prefix,
            )[i] < 100000000,
        forall|i: int|
            #![trigger matching_codes(names, prefix)[i]]
            0 <= i < matching_codes(names, prefix).len() ==> exists|j: int|
                0 <= j < names.len() && names[j] == spec_log_name(
                    prefix,
                    matching_codes(names, prefix)[i] as int,
                ),
    decreases names.len(),
{
    if names.len() > 0 {
        let t = names.drop_last();
        lemma_matching_codes_membership(t, prefix);
        let mc = matching_codes(names, prefix);
        let mct = matching_codes(t, prefix);
        assert forall|i: int| 0 <= i < mc.len() implies #[trigger] mc[i] < 100000000 && exists|
            j: int,
        | 0 <= j < names.len() && names[j] == spec_log_name(prefix, mc[i] as int) by {
            if i < mct.len() {
                assert(mc[i] == mct[i]);
                let j = choose|j: int|
                    0 <= j < t.len() && t[j] == spec_log_name(prefix, mct[i] as int);
                assert(names[j] == spec_log_name(prefix, mc[i] as int));
            } else {
                let last = names.last();
                lemma_log_name_parse(last, prefix);
                assert(mc[i] == name_code(last, prefix) as u32);
                assert(names[names.len() - 1] == spec_log_name(prefix, mc[i] as int));
            }
        }
    }
}

/// Inserting at the first position whose element exceeds the new code is
/// the same as the specification-level insertion.
proof fn lemma_insert_code_at(s: Seq<u32>, x: u32, j: int)
    requires
        codes_sorted(s),
        0 <= j <= s.len(),
        forall|m: int| 0 <= m < j ==> s[m] <= x,
        j < s.len() ==> x < s[j],
    ensures
        insert_code(s, x) == s.insert(j, x),
    decreases j,
{
    if j == 0 {
        assert(insert_code(s, x) =~= s.insert(0, x));
    } else {
        let t = s.drop_first();
        assert(codes_sorted(t)) by {
            assert(forall|i: int| 0 <= i < t.len() ==> t[i] == s[i + 1]);
        }
        assert(forall|m: int| 0 <= m < j - 1 ==> t[m] == s[m + 1] && s[m + 1] <= x);
        assert(j - 1 < t.len() ==> x < t[j - 1]);
        lemma_insert_code_at(t, x, j - 1);
        assert(s.first() <= x);
        assert(insert_code(s, x) == seq![s.first()] + t.insert(j - 1, x));
        assert(seq![s.first()] + t.insert(j - 1, x) =~= s.insert(j, x));
    }
}

/// Rearranges the codes into ascending order by insertion.
fn sort_codes(codes: &Vec<u32>) -> (r: Vec<u32>)
    ensures
        r@ == sorted_codes(codes@),
{
    let mut out: Vec<u32> = Vec::new();
    let mut i: usize = 0;
    proof {
        assert(codes@.take(0) =~= Seq::<u32>::empty());
    }
    while i < codes.len()
        invariant
            i <= codes@.len(),
            out@ == sorted_codes(codes@.take(i as int)),
            codes_sorted(out@),
        decreases codes@.len() - i,
    {
        let x = codes[i];
        let mut j: usize = 0;
        while j < out.len() && out[j] <= x
            invariant
                j <= out@.len(),
                forall|m: int| 0 <= m < j ==> out@[m] <= x,
                out@ == sorted_codes(codes@.take(i as int)),
                codes_sorted(out@),
            decreases out@.len() - j,
        {
            j += 1;
        }
        let ghost prev = out@;
        out.insert(j, x);
        proof {
            lemma_insert_code_at(prev, x, j as int);
            assert(codes@.take(i as int + 1).drop_last() =~= codes@.take(i as int));
            assert(codes@.take(i as int + 1).last() == codes@[i as int]);
            lemma_insert_code_props(prev, x);
        }
        i += 1;
    }
    proof {
        assert(codes@.take(codes@.len() as int) =~= codes@);
    }
    out
}

/// Computes which files a retention pass must delete so that at most
/// `max_count` log files remain, keeping the most recent ones.
///
/// The result lists, oldest first, the names of the matching log files
/// beyond the newest `max_count`; names that do not match the appender's
/// file-name grammar are never listed, so the pass can delete the result
/// blindly without touching foreign files.
pub fn files_to_remove(filenames: &Vec<String>, filename_prefix: &str, max_count: usize) -> (victims:
    Vec<String>)
    ensures
        seq_views(victims@) == victim_names(seq_views(filenames@), filename_prefix@, max_count as int),
        forall|i: int|
            0 <= i < victims@.len() ==> is_log_name(#[trigger] victims@[i]@, filename_prefix@),
        forall|i: int|
            #![trigger victims@[i]]
            0 <= i < victims@.len() ==> exists|j: int|
                0 <= j < filenames@.len() && filenames@[j]@ == victims@[i]@,
        victims@.len() == (if matching_count(seq_views(filenames@), filename_prefix@) > max_count {
            matching_count(seq_views(filenames@), filename_prefix@) - max_count
        } else {
            0
        }),
{
    let ghost names_v: Seq<Seq<char>> = seq_views(filenames@);
    let mut codes: Vec<u32> = Vec::new();
    let mut idx: usize = 0;
    proof {
        assert(names_v.take(0) =~= Seq::<Seq<char>>::empty());
    }
    while idx < filenames.len()
        invariant
            idx <= filenames@.len(),
            names_v == seq_views(filenames@),
            codes@ == matching_codes(names_v.take(idx as int), filename_prefix@),
        decreases filenames@.len() - idx,
    {
        let entry: &String = &filenames[idx];
        let matched = is_log_file(entry.as_str(), filename_prefix);
        proof {
            assert(names_v[idx as int] == filenames@[idx as int]@);
            assert(names_v.take(idx as int + 1).drop_last() =~= names_v.take(idx as int));
            assert(names_v.take(idx as int + 1).last() == names_v[idx as int]);
        }
        if matched.is_some() {
            let code = log_name_code(entry.as_str(), filename_prefix);
            codes.push(code);
        }
        idx += 1;
    }
    proof {
        assert(names_v.take(names_v.len() as int) =~= names_v);
    }
    let sorted = sort_codes(&codes);
    proof {
        lemma_sorted_codes_props(codes@);
        lemma_matching_codes_membership(names_v, filename_prefix@);
        assert forall|t: int| #![trigger sorted@[t]] 0 <= t < sorted@.len() implies sorted@[t]
            < 100000000 && exists|j: int|
            0 <= j < names_v.len() && names_v[j] == spec_log_name(
                filename_prefix@,
                sorted@[t] as int,
            ) by {
            assert(sorted@.contains(sorted@[t]));
            assert(codes@.contains(sorted@[t]));
            let ci = choose|ci: int| 0 <= ci < codes@.len() && codes@[ci] == sorted@[t];
            assert(matching_codes(names_v, filename_prefix@)[ci] == sorted@[t]);
        }
    }
    let mut victims: Vec<String> = Vec::new();
    if sorted.len() > max_count {
        let excess = sorted.len() - max_count;
        let mut t: usize = 0;
        proof {
            assert(victims@.map_values(|s: String| s@) =~= Seq::<Seq<char>>::empty());
            assert(sorted@.take(0) =~= Seq::<u32>::empty());
        }
        while t < excess
            invariant
                t <= excess,
                excess == sorted@.len() - max_count,
                max_count < sorted@.len(),
                sorted@ == sorted_matching_codes(names_v, filename_prefix@),
                names_v == seq_views(filenames@),
                forall|u: int| 0 <= u < sorted@.len() ==> #[trigger] sorted@[u] < 100000000,
                forall|u: int|
                    #![trigger sorted@[u]]
                    0 <= u < sorted@.len() ==> exists|j: int|
                        0 <= j < names_v.len() && names_v[j] == spec_log_name(
                            filename_prefix@,
                            sorted@[u] as int,
                        ),
                seq_views(victims@) == sorted@.take(t as int).map_values(
                    |c: u32| spec_log_name(filename_prefix@, c as int),
                ),
            decreases excess - t,
        {
            let c = sorted[t];
            let name = filename_for_code(filename_prefix, c);
            proof {
                lemma_log_name_round_trip(filename_prefix@, c as int);
            }
            let ghost prev_views = seq_views(victims@);
            victims.push(name);
            proof {
                assert(seq_views(victims@) =~= prev_views.push(name@));
                assert(seq_views(victims@) =~= sorted@.take(t as int + 1).map_values(
                    |c: u32| spec_log_name(filename_prefix@, c as int),
                ));
            }
            t += 1;
        }
        proof {
            assert(victim_codes(names_v, filename_prefix@, max_count as int) == sorted@.take(
                excess as int,
            ));
        }
    } else {
        proof {
            assert(seq_views(victims@) =~= Seq::<Seq<char>>::empty());
            assert(victim_names(names_v, filename_prefix@, max_count as int)
                =~= Seq::<Seq<char>>::empty());
        }
    }
    proof {
        assert forall|i: int| 0 <= i < victims@.len() implies is_log_name(
            #[trigger] victims@[i]@,
            filename_prefix@,
        ) by {
            assert(seq_views(victims@)[i] == victims@[i]@);
            lemma_log_name_round_trip(filename_prefix@, sorted@.take(victims@.len() as int)[i] as int);
        }
        assert forall|i: int| #![trigger victims@[i]] 0 <= i < victims@.len() implies exists|j: int|
            0 <= j < filenames@.len() && filenames@[j]@ == victims@[i]@ by {
            assert(seq_views(victims@)[i] == victims@[i]@);
            let u = i;
            assert(sorted@.take(victims@.len() as int)[u] == sorted@[u]);
            let j = choose|j: int|
                0 <= j < names_v.len() && names_v[j] == spec_log_name(
                    filename_prefix@,
                    sorted@[u] as int,
                );
            assert(names_v[j] == filenames@[j]@);
        }
    }
    victims
}

/// The retention plan deletes only from the old end: every victim code
/// is at most every kept code, so the files retained are exactly the
/// most recent matching ones.
pub proof fn lemma_victims_are_oldest(names: Seq<Seq<char>>, prefix: Seq<char>, max_count: int)
    requires
        0 <= max_count,
    ensures
        forall|i: int, j: int|
            0 <= i < victim_codes(names, prefix, max_count).len() && victim_codes(
                names,
                prefix,
                max_count,
            ).len() <= j < sorted_matching_codes(names, prefix).len() ==> #[trigger] victim_codes(
                names,
                prefix,
                max_count,
            )[i] <= #[trigger] sorted_matching_codes(names, prefix)[j],
{
    lemma_sorted_codes_props(matching_codes(names, prefix));
    let sorted = sorted_matching_codes(names, prefix);
    let v = victim_codes(names, prefix, max_count);
    if sorted.len() > max_count {
        assert(forall|i: int| 0 <= i < v.len() ==> v[i] == #[trigger] sorted[i]);
    }
}

} // verus!
