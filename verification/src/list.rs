//! The appointment list: the sorted in-memory collection of one day's
//! appointments, with the rules for loading, adding, removing, filtering,
//! copying and rendering them. Reading and writing the backing file itself
//! is the caller's part; the list works on and hands back the file's text.
use crate::appointment::{
    contains_reset, spec_appt_text, spec_display_text, spec_parse_appt, strike_wrapped, Appointment,
};
use crate::helper;
use crate::time::AppointmentTime;
use vstd::prelude::*;

verus! {

/// An appointment seen abstractly: hour, minutes, description characters.
pub type ApptView = (int, int, Seq<char>);

/// (h1, m1) is at or before (h2, m2).
pub open spec fn hm_le(h1: int, m1: int, h2: int, m2: int) -> bool {
    h1 < h2 || (h1 == h2 && m1 <= m2)
}

/// `a`'s time is at or before `b`'s.
pub open spec fn view_le(a: ApptView, b: ApptView) -> bool {
    hm_le(a.0, a.1, b.0, b.1)
}

/// `a` is at exactly the given hour and minute.
pub open spec fn same_time(a: ApptView, h: int, m: int) -> bool {
    a.0 == h && a.1 == m
}

/// The view of a well-formed appointment: both time fields in range.
pub open spec fn wf_view(a: ApptView) -> bool {
    0 <= a.0 <= 23 && 0 <= a.1 <= 59
}

/// Every element well formed.
pub open spec fn all_wf(s: Seq<ApptView>) -> bool {
    forall|i: int| 0 <= i < s.len() ==> wf_view(#[trigger] s[i])
}

/// Ascending by time; equal times may sit next to each other.
pub open spec fn sorted_by_time(s: Seq<ApptView>) -> bool {
    forall|i: int, j: int| 0 <= i < j < s.len() ==> view_le(#[trigger] s[i], #[trigger] s[j])
}

/// No two elements share an exact time.
pub open spec fn unique_times(s: Seq<ApptView>) -> bool {
    forall|i: int, j: int|
        0 <= i < j < s.len() ==> !same_time(#[trigger] s[i], s[j].0, #[trigger] s[j].1)
}

/// The views of a run of appointments.
pub open spec fn views_of(s: Seq<Appointment>) -> Seq<ApptView> {
    s.map_values(|a: Appointment| a@)
}

/// Keeps, in order, the elements satisfying `p`.
pub open spec fn keep(s: Seq<ApptView>, p: spec_fn(ApptView) -> bool) -> Seq<ApptView>
    decreases s.len(),
{
    if s.len() == 0 {
        Seq::empty()
    } else {
        let rest = keep(s.drop_last(), p);
        if p(s.last()) {
            rest.push(s.last())
        } else {
            rest
        }
    }
}

/// Everything but the elements at exactly (h, m).
pub open spec fn not_at_time(h: int, m: int) -> spec_fn(ApptView) -> bool {
    |a: ApptView| !same_time(a, h, m)
}

/// Only the elements strictly after (h, m).
pub open spec fn after_time(h: int, m: int) -> spec_fn(ApptView) -> bool {
    |a: ApptView| !hm_le(a.0, a.1, h, m)
}

/// Only the elements strictly after (h, m) and at or before (h2, m2).
pub open spec fn within_window(h: int, m: int, h2: int, m2: int) -> spec_fn(ApptView) -> bool {
    |a: ApptView| !hm_le(a.0, a.1, h, m) && hm_le(a.0, a.1, h2, m2)
}

/// The end of an expiry window: the reference time moved `w` minutes
/// forward, saturating within the day.
pub open spec fn window_high(rt: AppointmentTime, w: int) -> AppointmentTime {
    AppointmentTime::spec_from_total(AppointmentTime::spec_clamp_total(rt.spec_total() + w))
}

/// Only the elements strictly after `rt` and at or before the end of its
/// `w`-minute expiry window.
pub open spec fn window_pred(rt: AppointmentTime, w: int) -> spec_fn(ApptView) -> bool {
    within_window(
        rt.hour as int,
        rt.minutes as int,
        window_high(rt, w).hour as int,
        window_high(rt, w).minutes as int,
    )
}

/// Inserts `a` into a sorted run, after every element at or before it, so
/// that insertion is stable for equal times.
pub open spec fn insert_by_time(s: Seq<ApptView>, a: ApptView) -> Seq<ApptView>
    decreases s.len(),
{
    if s.len() == 0 {
        seq![a]
    } else if view_le(s[0], a) {
        seq![s[0]] + insert_by_time(s.drop_first(), a)
    } else {
        seq![a] + s
    }
}

/// Sorts ascending by time, stably: elements with equal times keep their
/// order of appearance.
pub open spec fn sort_by_time(s: Seq<ApptView>) -> Seq<ApptView>
    decreases s.len(),
{
    if s.len() == 0 {
        Seq::empty()
    } else {
        insert_by_time(sort_by_time(s.drop_last()), s.last())
    }
}

/// What `add` does to the contents: every element at the new time leaves,
/// then the new one goes in at its sorted place.
pub open spec fn spec_add(s: Seq<ApptView>, a: ApptView) -> Seq<ApptView> {
    insert_by_time(keep(s, not_at_time(a.0, a.1)), a)
}

/// `keep` holds exactly the elements of `s` that satisfy `p`, in particular
/// none it made up.
pub proof fn lemma_keep_membership(s: Seq<ApptView>, p: spec_fn(ApptView) -> bool)
    ensures
        forall|x: ApptView| #[trigger] keep(s, p).contains(x) <==> s.contains(x) && p(x),
    decreases s.len(),
{
    if s.len() > 0 {
        lemma_keep_membership(s.drop_last(), p);
        assert forall|x: ApptView| #[trigger] keep(s, p).contains(x) implies s.contains(x) && p(
            x,
        ) by {
            if keep(s, p).contains(x) {
                if p(s.last()) && x == s.last() {
                    assert(s.contains(x));
                } else {
                    let r = keep(s.drop_last(), p);
                    if p(s.last()) {
                        let i = choose|i: int| 0 <= i < r.push(s.last()).len() && r.push(
                            s.last(),
                        )[i] == x;
                        if i < r.len() {
                            assert(r.contains(x));
                        }
                    }
                    if keep(s.drop_last(), p).contains(x) {
                        let i = choose|i: int|
                            0 <= i < s.drop_last().len() && s.drop_last()[i] == x;
                        assert(s[i] == x);
                    }
                }
            }
        }
        assert forall|x: ApptView| s.contains(x) && p(x) implies #[trigger] keep(s, p).contains(
            x,
        ) by {
            let i = choose|i: int| 0 <= i < s.len() && s[i] == x;
            if i < s.len() - 1 {
                assert(s.drop_last()[i] == x);
                assert(s.drop_last().contains(x));
                assert(keep(s.drop_last(), p).contains(x));
                let r = keep(s.drop_last(), p);
                let j = choose|j: int| 0 <= j < r.len() && r[j] == x;
                if p(s.last()) {
                    assert(r.push(s.last())[j] == x);
                }
            } else {
                assert(x == s.last());
                assert(keep(s, p)[keep(s, p).len() - 1] == x);
            }
        }
    }
}

/// Keeping a subset of a sorted, well-formed run leaves it sorted and well
/// formed.
pub proof fn lemma_keep_sorted(s: Seq<ApptView>, p: spec_fn(ApptView) -> bool)
    requires
        sorted_by_time(s),
        all_wf(s),
    ensures
        sorted_by_time(keep(s, p)),
        all_wf(keep(s, p)),
        keep(s, p).len() <= s.len(),
    decreases s.len(),
{
    if s.len() > 0 {
        lemma_keep_sorted(s.drop_last(), p);
        let r = keep(s.drop_last(), p);
        if p(s.last()) {
            lemma_keep_membership(s.drop_last(), p);
            assert forall|i: int, j: int|
                0 <= i < j < r.push(s.last()).len() implies view_le(
                #[trigger] r.push(s.last())[i],
                #[trigger] r.push(s.last())[j],
            ) by {
                if j == r.len() {
                    assert(r.contains(r[i]));
                    let k = choose|k: int|
                        0 <= k < s.drop_last().len() && s.drop_last()[k] == r[i];
                    assert(s[k] == r[i]);
                    assert(view_le(s[k], s.last()));
                }
            }
            assert forall|i: int| 0 <= i < r.push(s.last()).len() implies wf_view(
                #[trigger] r.push(s.last())[i],
            ) by {
                if i == r.len() {
                    assert(wf_view(s[s.len() - 1]));
                }
            }
        }
    }
}

/// Where the first element not at-or-before `a` stands is where `a` goes in.
proof fn lemma_insert_by_time_at(s: Seq<ApptView>, a: ApptView, idx: int)
    requires
        0 <= idx <= s.len(),
        forall|j: int| 0 <= j < idx ==> view_le(#[trigger] s[j], a),
        idx < s.len() ==> !view_le(s[idx], a),
    ensures
        insert_by_time(s, a) == s.take(idx) + seq![a] + s.skip(idx),
    decreases s.len(),
{
    if s.len() == 0 {
        assert(insert_by_time(s, a) =~= s.take(idx) + seq![a] + s.skip(idx));
    } else if idx == 0 {
        assert(insert_by_time(s, a) =~= s.take(0) + seq![a] + s.skip(0));
    } else {
        let tail = s.drop_first();
        assert(forall|j: int| 0 <= j < idx - 1 ==> view_le(#[trigger] tail[j], a));
        lemma_insert_by_time_at(tail, a, idx - 1);
        assert(seq![s[0]] + (tail.take(idx - 1) + seq![a] + tail.skip(idx - 1)) =~= s.take(idx)
            + seq![a] + s.skip(idx));
    }
}

/// Inserting a well-formed element into a sorted, well-formed run keeps it
/// sorted and well formed, adds exactly that element, and moves nothing
/// else in or out.
pub proof fn lemma_insert_by_time_sorted(s: Seq<ApptView>, a: ApptView)
    requires
        sorted_by_time(s),
        all_wf(s),
        wf_view(a),
    ensures
        sorted_by_time(insert_by_time(s, a)),
        all_wf(insert_by_time(s, a)),
        insert_by_time(s, a).len() == s.len() + 1,
        insert_by_time(s, a).contains(a),
        forall|x: ApptView| #[trigger] insert_by_time(s, a).contains(x) <==> (s.contains(x) || x
            == a),
    decreases s.len(),
{
    if s.len() == 0 {
        assert(insert_by_time(s, a) =~= seq![a]);
        assert(insert_by_time(s, a)[0] == a);
        assert forall|x: ApptView| #[trigger] insert_by_time(s, a).contains(x) implies (s.contains(
            x,
        ) || x == a) by {
            let i = choose|i: int|
                0 <= i < insert_by_time(s, a).len() && insert_by_time(s, a)[i] == x;
        }
    } else if view_le(s[0], a) {
        let tail = s.drop_first();
        lemma_insert_by_time_sorted(tail, a);
        let r = seq![s[0]] + insert_by_time(tail, a);
        assert(insert_by_time(s, a) == r);
        // the head stays at or before everything behind it
        assert forall|i: int, j: int| 0 <= i < j < r.len() implies view_le(
            #[trigger] r[i],
            #[trigger] r[j],
        ) by {
            if i == 0 {
                let rt = insert_by_time(tail, a);
                assert(rt.contains(rt[j - 1]));
                if rt[j - 1] == a {
                } else {
                    assert(tail.contains(rt[j - 1]));
                    let k = choose|k: int| 0 <= k < tail.len() && tail[k] == rt[j - 1];
                    assert(s[k + 1] == rt[j - 1]);
                }
            } else {
                assert(r[i] == insert_by_time(tail, a)[i - 1]);
                assert(r[j] == insert_by_time(tail, a)[j - 1]);
            }
        }
        assert(r.contains(a)) by {
            let rt = insert_by_time(tail, a);
            let k = choose|k: int| 0 <= k < rt.len() && rt[k] == a;
            assert(r[k + 1] == a);
        }
        assert forall|x: ApptView| #[trigger] r.contains(x) implies (s.contains(x) || x == a) by {
            let i = choose|i: int| 0 <= i < r.len() && r[i] == x;
            if i == 0 {
                assert(s[0] == x);
            } else {
                let rt = insert_by_time(tail, a);
                assert(rt.contains(rt[i - 1]));
                if rt[i - 1] != a {
                    assert(tail.contains(rt[i - 1]));
                    let k = choose|k: int| 0 <= k < tail.len() && tail[k] == x;
                    assert(s[k + 1] == x);
                }
            }
        }
        assert forall|x: ApptView| (s.contains(x) || x == a) implies #[trigger] r.contains(x) by {
            if x == a {
                let rt = insert_by_time(tail, a);
                let k = choose|k: int| 0 <= k < rt.len() && rt[k] == a;
                assert(r[k + 1] == a);
            } else {
                let i = choose|i: int| 0 <= i < s.len() && s[i] == x;
                if i == 0 {
                    assert(r[0] == x);
                } else {
                    assert(tail[i - 1] == x);
                    assert(tail.contains(x));
                    let rt = insert_by_time(tail, a);
                    assert(rt.contains(x));
                    let k = choose|k: int| 0 <= k < rt.len() && rt[k] == x;
                    assert(r[k + 1] == x);
                }
            }
        }
    } else {
        let r = seq![a] + s;
        assert(insert_by_time(s, a) == r);
        assert forall|i: int, j: int| 0 <= i < j < r.len() implies view_le(
            #[trigger] r[i],
            #[trigger] r[j],
        ) by {
            if i == 0 {
                // a goes strictly before s[0], which is at or before s[j-1]
                assert(!view_le(s[0], a));
                if j > 1 {
                    assert(view_le(s[0], s[j - 1]));
                }
            }
        }
        assert(r[0] == a);
        assert forall|x: ApptView| #[trigger] r.contains(x) implies (s.contains(x) || x == a) by {
            let i = choose|i: int| 0 <= i < r.len() && r[i] == x;
            if i > 0 {
                assert(s[i - 1] == x);
            }
        }
        assert forall|x: ApptView| (s.contains(x) || x == a) implies #[trigger] r.contains(x) by {
            if x == a {
                assert(r[0] == a);
            } else {
                let i = choose|i: int| 0 <= i < s.len() && s[i] == x;
                assert(r[i + 1] == x);
            }
        }
    }
}

/// A line with any single trailing carriage return removed.
pub open spec fn strip_cr(l: Seq<char>) -> Seq<char> {
    if l.len() > 0 && l.last() == '\r' {
        l.drop_last()
    } else {
        l
    }
}

/// The segments of `s` between newlines, including a final empty segment
/// when `s` ends with a newline.
pub open spec fn split_newlines(s: Seq<char>) -> Seq<Seq<char>>
    decreases s.len(),
{
    let i = helper::first_occurrence(s, '\n');
    if !(0 <= i && i < s.len()) {
        seq![s]
    } else {
        seq![s.take(i)] + split_newlines(s.subrange(i + 1, s.len() as int))
    }
}

/// The lines of `s` as `str::lines` reads them: split at newlines, no final
/// empty line, any trailing carriage return stripped from each.
pub open spec fn spec_lines(s: Seq<char>) -> Seq<Seq<char>> {
    let segs = split_newlines(s);
    let trimmed = if segs.len() > 0 && segs.last().len() == 0 {
        segs.drop_last()
    } else {
        segs
    };
    trimmed.map_values(|l: Seq<char>| strip_cr(l))
}

/// The views of the lines that parse as appointments, in line order; lines
/// that do not parse are dropped.
pub open spec fn parse_views(lines: Seq<Seq<char>>) -> Seq<ApptView>
    decreases lines.len(),
{
    if lines.len() == 0 {
        Seq::empty()
    } else {
        let rest = parse_views(lines.drop_last());
        match spec_parse_appt(lines.last()) {
            Some(p) => rest.push(p),
            None => rest,
        }
    }
}

/// What loading file text yields: the parseable lines, sorted by time.
pub open spec fn spec_load(content: Seq<char>) -> Seq<ApptView> {
    sort_by_time(parse_views(spec_lines(content)))
}

/// A final empty segment parses to nothing, so parsing all segments equals
/// parsing the lines.
proof fn lemma_parse_all_segments(s: Seq<char>)
    ensures
        parse_views(split_newlines(s).map_values(|l: Seq<char>| strip_cr(l))) == parse_views(
            spec_lines(s),
        ),
{
    let segs = split_newlines(s);
    let mapped = segs.map_values(|l: Seq<char>| strip_cr(l));
    if segs.len() > 0 && segs.last().len() == 0 {
        assert(mapped.last() == strip_cr(segs.last()));
        assert(strip_cr(segs.last()) =~= Seq::<char>::empty());
        assert(spec_parse_appt(mapped.last()) is None);
        assert(mapped.drop_last() =~= segs.drop_last().map_values(|l: Seq<char>| strip_cr(l)));
        assert(parse_views(mapped) == parse_views(mapped.drop_last()));
    } else {
        assert(mapped == spec_lines(s));
    }
}

/// Every parsed line's view has its time in range.
proof fn lemma_parse_views_wf(lines: Seq<Seq<char>>)
    ensures
        all_wf(parse_views(lines)),
    decreases lines.len(),
{
    if lines.len() > 0 {
        lemma_parse_views_wf(lines.drop_last());
        let rest = parse_views(lines.drop_last());
        match spec_parse_appt(lines.last()) {
            Some(p) => {
                assert forall|i: int| 0 <= i < rest.push(p).len() implies wf_view(
                    #[trigger] rest.push(p)[i],
                ) by {
                    if i < rest.len() {
                        assert(wf_view(rest[i]));
                    }
                }
            },
            None => {},
        }
    }
}

/// Sorting yields a sorted run of the same well-formed elements.
pub proof fn lemma_sort_by_time_sorted(s: Seq<ApptView>)
    requires
        all_wf(s),
    ensures
        sorted_by_time(sort_by_time(s)),
        all_wf(sort_by_time(s)),
        sort_by_time(s).len() == s.len(),
    decreases s.len(),
{
    if s.len() > 0 {
        assert(all_wf(s.drop_last())) by {
            assert(forall|i: int|
                0 <= i < s.drop_last().len() ==> #[trigger] s.drop_last()[i] == s[i]);
        }
        lemma_sort_by_time_sorted(s.drop_last());
        assert(wf_view(s[s.len() - 1]));
        lemma_insert_by_time_sorted(sort_by_time(s.drop_last()), s.last());
    }
}

/// Parses file text into the sorted appointments its lines hold.
fn parse_content(content: &str) -> (r: Vec<Appointment>)
    ensures
        views_of(r@) == spec_load(content@),
{
    let n = content.unicode_len();
    let mut items: Vec<Appointment> = Vec::new();
    let mut pos: usize = 0;
    let ghost mut segs_done: Seq<Seq<char>> = Seq::empty();
    proof {
        assert(content@.subrange(0, n as int) =~= content@);
        assert(segs_done + split_newlines(content@) =~= split_newlines(content@));
    }
    loop
        invariant
            pos <= n,
            n == content@.len(),
            views_of(items@) == sort_by_time(
                parse_views(segs_done.map_values(|l: Seq<char>| strip_cr(l))),
            ),
            split_newlines(content@) =~= segs_done + split_newlines(
                content@.subrange(pos as int, n as int),
            ),
        decreases n - pos,
    {
        let j = helper::find_char_from(content, pos, '\n');
        let ghost seg_raw = content@.subrange(pos as int, j as int);
        // strip one trailing carriage return from the segment
        let line = if j > pos && content.get_char(j - 1) == '\r' {
            content.substring_char(pos, j - 1)
        } else {
            content.substring_char(pos, j)
        };
        proof {
            if j > pos && content@[j - 1] == '\r' {
                assert(seg_raw.last() == content@[j - 1]);
                assert(line@ =~= seg_raw.drop_last());
            }
            assert(line@ == strip_cr(seg_raw));
        }
        let ghost parsed_before = parse_views(segs_done.map_values(|l: Seq<char>| strip_cr(l)));
        let ghost segs_next = segs_done.push(seg_raw);
        let ghost mapped_next = segs_next.map_values(|l: Seq<char>| strip_cr(l));
        proof {
            assert(mapped_next.drop_last() =~= segs_done.map_values(|l: Seq<char>| strip_cr(l)));
            assert(mapped_next.last() == strip_cr(seg_raw));
        }
        match Appointment::from(line) {
            Ok(a) => {
                proof {
                    let p = spec_parse_appt(line@)->Some_0;
                    assert(a@ == p);
                    assert(parse_views(mapped_next) == parsed_before.push(p));
                    assert(parse_views(mapped_next).drop_last() =~= parsed_before);
                }
                insert_sorted(&mut items, a);
            },
            Err(_) => {
                proof {
                    assert(parse_views(mapped_next) == parsed_before);
                }
            },
        }
        proof {
            segs_done = segs_next;
        }
        if j == n {
            proof {
                let suffix = content@.subrange(pos as int, n as int);
                assert(helper::first_occurrence(suffix, '\n') == suffix.len()) by {
                    helper::lemma_first_occurrence(suffix, '\n');
                    if helper::first_occurrence(suffix, '\n') < suffix.len() {
                        assert(suffix[helper::first_occurrence(suffix, '\n')] == '\n');
                        assert(suffix[helper::first_occurrence(suffix, '\n')] == content@[pos
                            + helper::first_occurrence(suffix, '\n')]);
                    }
                }
                assert(split_newlines(suffix) =~= seq![suffix]);
                assert(seg_raw == suffix);
                assert(split_newlines(content@) =~= segs_done);
                lemma_parse_all_segments(content@);
            }
            return items;
        }
        proof {
            // the found newline splits the suffix: first its segment, then the rest
            let suffix = content@.subrange(pos as int, n as int);
            let k = j - pos;
            assert(helper::first_occurrence(suffix, '\n') == k) by {
                helper::lemma_first_occurrence(suffix, '\n');
                assert(suffix[k as int] == content@[j as int]);
                if helper::first_occurrence(suffix, '\n') < k {
                    let f = helper::first_occurrence(suffix, '\n');
                    assert(suffix[f] == content@[pos + f]);
                }
            }
            assert(suffix.take(k as int) =~= seg_raw);
            assert(suffix.subrange(k + 1, suffix.len() as int) =~= content@.subrange(
                j + 1,
                n as int,
            ));
            assert(split_newlines(suffix) == seq![seg_raw] + split_newlines(
                content@.subrange(j + 1, n as int),
            ));
        }
        pos = j + 1;
    }
}

/// Where `insert_by_time` puts the new element: right after the last one at
/// or before it.
spec fn insert_pos(s: Seq<ApptView>, a: ApptView) -> int
    decreases s.len(),
{
    if s.len() == 0 {
        0
    } else if view_le(s[0], a) {
        1 + insert_pos(s.drop_first(), a)
    } else {
        0
    }
}

/// `insert_pos` is the first position whose element is not at or before the
/// new one.
proof fn lemma_insert_pos(s: Seq<ApptView>, a: ApptView)
    ensures
        0 <= insert_pos(s, a) <= s.len(),
        forall|j: int| 0 <= j < insert_pos(s, a) ==> view_le(#[trigger] s[j], a),
        insert_pos(s, a) < s.len() ==> !view_le(s[insert_pos(s, a)], a),
    decreases s.len(),
{
    if s.len() > 0 && view_le(s[0], a) {
        let tail = s.drop_first();
        lemma_insert_pos(tail, a);
        assert forall|j: int| 0 <= j < insert_pos(s, a) implies view_le(#[trigger] s[j], a) by {
            if j > 0 {
                assert(view_le(tail[j - 1], a));
                assert(s[j] == tail[j - 1]);
            }
        }
    }
}

/// Keeping a subset of a list without duplicate times leaves no duplicate
/// times.
pub proof fn lemma_keep_unique(s: Seq<ApptView>, p: spec_fn(ApptView) -> bool)
    requires
        unique_times(s),
    ensures
        unique_times(keep(s, p)),
    decreases s.len(),
{
    if s.len() > 0 {
        assert(unique_times(s.drop_last())) by {
            assert(forall|i: int|
                0 <= i < s.drop_last().len() ==> #[trigger] s.drop_last()[i] == s[i]);
        }
        lemma_keep_unique(s.drop_last(), p);
        if p(s.last()) {
            let r = keep(s.drop_last(), p);
            lemma_keep_membership(s.drop_last(), p);
            assert forall|i: int, j: int| 0 <= i < j < r.push(s.last()).len() implies !same_time(
                #[trigger] r.push(s.last())[i],
                r.push(s.last())[j].0,
                #[trigger] r.push(s.last())[j].1,
            ) by {
                if j == r.len() {
                    assert(r.contains(r[i]));
                    let k = choose|k: int|
                        0 <= k < s.drop_last().len() && s.drop_last()[k] == r[i];
                    assert(s[k] == r[i]);
                    assert(!same_time(s[k], s[s.len() - 1].0, s[s.len() - 1].1));
                }
            }
        }
    }
}

/// What `add` leaves behind: a sorted list that holds the new appointment,
/// holds nothing else at its time, and, when it held no duplicate times
/// before, holds none after. So any list built by adds alone is sorted with
/// at most one appointment per time, a later add replacing the earlier one.
pub proof fn lemma_add_sorted_and_unique(s: Seq<ApptView>, a: ApptView)
    requires
        sorted_by_time(s),
        all_wf(s),
        wf_view(a),
    ensures
        sorted_by_time(spec_add(s, a)),
        all_wf(spec_add(s, a)),
        spec_add(s, a).contains(a),
        forall|i: int|
            0 <= i < spec_add(s, a).len() && same_time(#[trigger] spec_add(s, a)[i], a.0, a.1)
                ==> spec_add(s, a)[i] == a,
        unique_times(s) ==> unique_times(spec_add(s, a)),
{
    let p = not_at_time(a.0, a.1);
    let kept = keep(s, p);
    let r = spec_add(s, a);
    lemma_keep_sorted(s, p);
    lemma_keep_membership(s, p);
    lemma_insert_by_time_sorted(kept, a);
    lemma_insert_pos(kept, a);
    let idx = insert_pos(kept, a);
    lemma_insert_by_time_at(kept, a, idx);
    assert(r == kept.take(idx) + seq![a] + kept.skip(idx));
    // nothing but the new element sits at its time
    assert forall|i: int|
        0 <= i < r.len() && same_time(#[trigger] r[i], a.0, a.1) implies r[i] == a by {
        if i < idx {
            assert(r[i] == kept[i]);
            assert(kept.contains(kept[i]));
        } else if i > idx {
            assert(r[i] == kept[i - 1]);
            assert(kept.contains(kept[i - 1]));
        }
    }
    if unique_times(s) {
        lemma_keep_unique(s, p);
        assert forall|i: int, j: int| 0 <= i < j < r.len() implies !same_time(
            #[trigger] r[i],
            r[j].0,
            #[trigger] r[j].1,
        ) by {
            let ki = if i < idx {
                i
            } else {
                i - 1
            };
            let kj = if j < idx {
                j
            } else {
                j - 1
            };
            if i != idx && j != idx {
                assert(r[i] == kept[ki] && r[j] == kept[kj]);
                assert(!same_time(kept[ki], kept[kj].0, kept[kj].1));
            } else if i == idx {
                assert(r[i] == a && r[j] == kept[kj]);
                assert(kept.contains(kept[kj]));
            } else {
                assert(r[j] == a && r[i] == kept[ki]);
                assert(kept.contains(kept[ki]));
            }
        }
    }
}

/// The expiry-window filter keeps exactly the appointments strictly after
/// the reference time and at or before the reference time moved `w` minutes
/// forward (saturating), and nothing else.
pub proof fn lemma_filter_window_membership(s: Seq<ApptView>, rt: AppointmentTime, w: int)
    ensures
        forall|x: ApptView| #[trigger]
            keep(s, window_pred(rt, w)).contains(x) <==> (s.contains(x) && !hm_le(
                x.0,
                x.1,
                rt.hour as int,
                rt.minutes as int,
            ) && hm_le(
                x.0,
                x.1,
                window_high(rt, w).hour as int,
                window_high(rt, w).minutes as int,
            )),
{
    lemma_keep_membership(s, window_pred(rt, w));
}

/// The file text of a run of appointments: one `HH:MM description` line
/// each, every line newline-terminated.
pub open spec fn spec_file_text(s: Seq<ApptView>) -> Seq<char>
    decreases s.len(),
{
    if s.len() == 0 {
        Seq::empty()
    } else {
        spec_file_text(s.drop_last()) + spec_appt_text(s.last().0, s.last().1, s.last().2)
            + seq!['\n']
    }
}

/// One rendered line: the display text, struck through (or not, as the
/// terminal settings decide) when the appointment is at or before the
/// reference time.
pub open spec fn display_part_ok(a: ApptView, rt: AppointmentTime, part: Seq<char>) -> bool {
    let base = spec_display_text(a.0, a.1, a.2);
    &&& !hm_le(a.0, a.1, rt.hour as int, rt.minutes as int) ==> part == base
    &&& hm_le(a.0, a.1, rt.hour as int, rt.minutes as int) && !contains_reset(base) ==> (part
        == base || part == strike_wrapped(base))
}

/// Lines joined with single newlines, none at the end.
pub open spec fn join_lines(parts: Seq<Seq<char>>) -> Seq<char>
    decreases parts.len(),
{
    if parts.len() == 0 {
        Seq::empty()
    } else if parts.len() == 1 {
        parts[0]
    } else {
        join_lines(parts.drop_last()) + seq!['\n'] + parts.last()
    }
}

/// The whole display: one acceptable rendered line for each appointment, in
/// order, joined with newlines.
pub open spec fn render_ok(
    items: Seq<ApptView>,
    rt: AppointmentTime,
    parts: Seq<Seq<char>>,
    text: Seq<char>,
) -> bool {
    &&& parts.len() == items.len()
    &&& forall|i: int| 0 <= i < parts.len() ==> display_part_ok(items[i], rt, #[trigger] parts[i])
    &&& text == join_lines(parts)
}

/// The options for filtering a list against its reference time.
pub enum FilterOption {
    ByReferenceTime,
    ByReferenceAndExpireTime(i32),
}

/// One day's appointments, kept sorted ascending by time, together with the
/// reference time its past/future decisions are made against.
pub struct AppointmentList {
    pub reference_time: AppointmentTime,
    pub appointments: Vec<Appointment>,
}

/// The list seen abstractly: its appointments' views, in order.
impl View for AppointmentList {
    type V = Seq<ApptView>;

    open spec fn view(&self) -> Seq<ApptView> {
        views_of(self.appointments@)
    }
}

impl AppointmentList {
    /// A valid reference time and sorted, well-formed contents: what every
    /// constructor establishes and every method keeps.
    pub open spec fn wf(self) -> bool {
        self.reference_time.wf() && all_wf(self@) && sorted_by_time(self@)
    }

    /// Message rejecting a copy into a day that already has appointments.
    pub open spec fn not_empty_error() -> Seq<char> {
        "Copy not possible, there are appointments for the current day."@
    }

    /// Message rejecting a copy from a day with no appointments file.
    pub open spec fn source_missing_error() -> Seq<char> {
        "Given day has no appointments."@
    }

    /// Message rejecting the removal of a time no appointment is at.
    pub open spec fn not_found_error() -> Seq<char> {
        "There is no appointment at this specific time."@
    }

    /// Message rejecting the removal of an appointment already past.
    pub open spec fn already_past_error() -> Seq<char> {
        "This appointment is already past and cannot be removed."@
    }

    /// Binds a reference time to the given day's file text and loads it; no
    /// text (a missing or unreadable file) is an empty day, not an error.
    pub fn new(reference_time: AppointmentTime, content: Option<&str>) -> (r: Self)
        requires
            reference_time.wf(),
        ensures
            r.reference_time == reference_time,
            r@ == match content {
                Some(c) => spec_load(c@),
                None => Seq::<ApptView>::empty(),
            },
            r.wf(),
    {
        let mut list = Self { reference_time, appointments: Vec::new() };
        list.load(content);
        list
    }

    /// Replaces the contents with what the given file text holds, sorted by
    /// time, dropping lines that do not parse; no text (a missing or
    /// unreadable file) leaves an empty list, not an error.
    pub fn load(&mut self, content: Option<&str>)
        requires
            old(self).reference_time.wf(),
        ensures
            final(self).reference_time == old(self).reference_time,
            final(self)@ == match content {
                Some(c) => spec_load(c@),
                None => Seq::<ApptView>::empty(),
            },
            final(self).wf(),
    {
        match content {
            None => {
                self.appointments = Vec::new();
            },
            Some(c) => {
                self.appointments = parse_content(c);
                proof {
                    lemma_parse_views_wf(spec_lines(c@));
                    lemma_sort_by_time_sorted(parse_views(spec_lines(c@)));
                }
            },
        }
    }

    /// Takes over another day's appointments, from that day's file text:
    /// only a day with no appointments of its own may copy, and only from a
    /// day whose file exists. The caller copies the file itself on success.
    pub fn copy(&mut self, source: Option<&str>) -> (r: Result<(), String>)
        requires
            old(self).wf(),
        ensures
            final(self).reference_time == old(self).reference_time,
            final(self).wf(),
            old(self)@.len() > 0 ==> r is Err && r->Err_0@ == Self::not_empty_error()
                && final(self)@ == old(self)@,
            old(self)@.len() == 0 && source is None ==> r is Err && r->Err_0@
                == Self::source_missing_error() && final(self)@ == old(self)@,
            old(self)@.len() == 0 ==> (source matches Some(c) ==> r is Ok && final(self)@
                == spec_load(c@)),
    {
        if self.appointments.len() > 0 {
            return Err(
                String::from_str("Copy not possible, there are appointments for the current day."),
            );
        }
        match source {
            None => Err(String::from_str("Given day has no appointments.")),
            Some(c) => {
                self.appointments = parse_content(c);
                proof {
                    lemma_parse_views_wf(spec_lines(c@));
                    lemma_sort_by_time_sorted(parse_views(spec_lines(c@)));
                }
                Ok(())
            },
        }
    }

    /// The current appointments, in their sorted order.
    pub fn appointments(&self) -> (r: &Vec<Appointment>)
        ensures
            views_of(r@) == self@,
    {
        &self.appointments
    }

    /// True when no appointment is held.
    pub fn no_appointments(&self) -> (r: bool)
        ensures
            r == (self@.len() == 0),
    {
        self.appointments.len() == 0
    }

    /// The text the backing file is to hold: every appointment as its
    /// storage line in sorted order, each line newline-terminated. The
    /// caller writes it out whole, replacing the file.
    pub fn write(&self) -> (r: String)
        requires
            self.wf(),
        ensures
            r@ == spec_file_text(self@),
    {
        proof {
            reveal_strlit("\n");
        }
        let ghost s = self@;
        let mut out = String::new();
        let mut k: usize = 0;
        while k < self.appointments.len()
            invariant
                k <= self@.len(),
                s == self@,
                self.wf(),
                out@ == spec_file_text(s.take(k as int)),
            decreases self@.len() - k,
        {
            let ghost prev = out@;
            proof {
                reveal_strlit("\n");
                assert(wf_view(s[k as int]));
                assert(s[k as int] == self.appointments@[k as int]@);
            }
            let line = self.appointments[k].to_text();
            out.append(line.as_str());
            out.append("\n");
            proof {
                assert(s.take(k + 1).drop_last() =~= s.take(k as int));
                assert(s.take(k + 1).last() == s[k as int]);
                assert(out@ =~= spec_file_text(s.take(k + 1)));
            }
            k += 1;
        }
        proof {
            assert(s.take(s.len() as int) =~= s);
        }
        out
    }

    /// The whole list for showing to the user: every appointment's display
    /// line in sorted order, joined with newlines, past ones struck through
    /// as the terminal settings allow.
    pub fn render(&self) -> (r: String)
        requires
            self.wf(),
        ensures
            exists|parts: Seq<Seq<char>>|
                #[trigger] render_ok(self@, self.reference_time, parts, r@),
            self@.len() == 0 ==> r@ == Seq::<char>::empty(),
    {
        proof {
            reveal_strlit("\n");
        }
        let ghost s = self@;
        let ghost mut parts: Seq<Seq<char>> = Seq::empty();
        let mut out = String::new();
        let mut k: usize = 0;
        while k < self.appointments.len()
            invariant
                k <= self@.len(),
                s == self@,
                self.wf(),
                parts.len() == k,
                forall|i: int|
                    0 <= i < parts.len() ==> display_part_ok(
                        s[i],
                        self.reference_time,
                        #[trigger] parts[i],
                    ),
                out@ == join_lines(parts),
            decreases self@.len() - k,
        {
            let ghost prev = parts;
            proof {
                reveal_strlit("\n");
                assert(wf_view(s[k as int]));
                assert(s[k as int] == self.appointments@[k as int]@);
            }
            let line = self.appointments[k].to_string_display(&self.reference_time);
            if k > 0 {
                out.append("\n");
            }
            out.append(line.as_str());
            proof {
                parts = parts.push(line@);
                assert(parts.drop_last() =~= prev);
                assert(parts.last() == line@);
                if k == 0 {
                    assert(out@ =~= join_lines(parts));
                } else {
                    assert(out@ =~= join_lines(parts));
                }
            }
            k += 1;
        }
        proof {
            assert(render_ok(self@, self.reference_time, parts, out@));
        }
        out
    }

    /// Drops every appointment; the caller removes the backing file.
    pub fn clear(&mut self)
        ensures
            final(self)@.len() == 0,
            final(self).reference_time == old(self).reference_time,
    {
        self.appointments = Vec::new();
    }

    /// Removes the appointment at exactly the given time and hands the new
    /// contents to the caller to persist. A time no appointment is at is
    /// rejected; so is one at or before the reference time, past
    /// appointments being immutable; in both cases the list is unchanged.
    pub fn remove(&mut self, time: AppointmentTime) -> (r: Result<(), String>)
        requires
            old(self).wf(),
        ensures
            final(self).reference_time == old(self).reference_time,
            final(self).wf(),
            !has_time(old(self)@, time.hour as int, time.minutes as int) ==> r is Err
                && r->Err_0@ == Self::not_found_error() && final(self)@ == old(self)@,
            has_time(old(self)@, time.hour as int, time.minutes as int) && time.spec_le(
                old(self).reference_time,
            ) ==> r is Err && r->Err_0@ == Self::already_past_error() && final(self)@ == old(
                self,
            )@,
            has_time(old(self)@, time.hour as int, time.minutes as int) && !time.spec_le(
                old(self).reference_time,
            ) ==> r is Ok && final(self)@ == old(self)@.remove(
                index_of_time(old(self)@, time.hour as int, time.minutes as int),
            ),
    {
        let ghost s = self@;
        let ghost h = time.hour as int;
        let ghost m = time.minutes as int;
        let n = self.appointments.len();
        let mut idx: usize = 0;
        while idx < n && !(self.appointments[idx].time == time)
            invariant
                idx <= n,
                *self == *old(self),
                n == self@.len(),
                s == self@,
                forall|j: int| 0 <= j < idx ==> !same_time(#[trigger] s[j], time.hour as int, time.minutes as int),
            decreases n - idx,
        {
            idx += 1;
        }
        proof {
            lemma_index_of_time(s, h, m);
            if idx < n {
                assert(same_time(s[idx as int], h, m));
                if index_of_time(s, h, m) < idx {
                    assert(!same_time(s[index_of_time(s, h, m)], h, m));
                }
                assert(index_of_time(s, h, m) == idx);
                assert(has_time(s, h, m));
            } else {
                assert(!has_time(s, h, m)) by {
                    if has_time(s, h, m) {
                        let i = choose|i: int| 0 <= i < s.len() && same_time(#[trigger] s[i], h, m);
                        assert(!same_time(s[i], h, m));
                    }
                }
            }
        }
        if idx == n {
            return Err(String::from_str("There is no appointment at this specific time."));
        }
        if self.appointments[idx].is_equal_or_earlier_than(&self.reference_time) {
            proof {
                assert(s[idx as int].0 == h && s[idx as int].1 == m);
            }
            return Err(
                String::from_str("This appointment is already past and cannot be removed."),
            );
        }
        proof {
            lemma_remove_index_sorted(s, idx as int);
        }
        self.appointments.remove(idx);
        proof {
            assert(self@ =~= s.remove(idx as int));
            assert(s[idx as int].0 == h && s[idx as int].1 == m);
        }
        Ok(())
    }

    /// Narrows the contents in memory only: to the appointments strictly
    /// after the reference time, or to those also at or before the reference
    /// time moved forward by the given expiry minutes (saturating).
    pub fn filter(&mut self, options: FilterOption)
        requires
            old(self).wf(),
        ensures
            final(self).reference_time == old(self).reference_time,
            final(self).wf(),
            options is ByReferenceTime ==> final(self)@ == keep(
                old(self)@,
                after_time(
                    old(self).reference_time.hour as int,
                    old(self).reference_time.minutes as int,
                ),
            ),
            options matches FilterOption::ByReferenceAndExpireTime(w) ==> final(self)@ == keep(
                old(self)@,
                window_pred(old(self).reference_time, w as int),
            ),
    {
        match options {
            FilterOption::ByReferenceTime => {
                proof {
                    lemma_keep_sorted(
                        self@,
                        after_time(
                            self.reference_time.hour as int,
                            self.reference_time.minutes as int,
                        ),
                    );
                }
                retain_after(&mut self.appointments, self.reference_time);
            },
            FilterOption::ByReferenceAndExpireTime(w) => {
                let hi = self.reference_time.add_minutes(w);
                proof {
                    assert(hi == window_high(self.reference_time, w as int));
                    lemma_keep_sorted(self@, window_pred(self.reference_time, w as int));
                    assert(window_pred(self.reference_time, w as int) == within_window(
                        self.reference_time.hour as int,
                        self.reference_time.minutes as int,
                        hi.hour as int,
                        hi.minutes as int,
                    ));
                }
                retain_window(&mut self.appointments, self.reference_time, hi);
            },
        }
    }

    /// Adds an appointment: any appointment already at exactly that time is
    /// replaced, and the new one takes its sorted place; the list stays
    /// sorted and an already-unique list stays unique. The caller persists
    /// the new contents.
    pub fn add(&mut self, appointment: Appointment)
        requires
            old(self).wf(),
            appointment.wf(),
        ensures
            final(self)@ == spec_add(old(self)@, appointment@),
            final(self).reference_time == old(self).reference_time,
            final(self).wf(),
    {
        proof {
            lemma_keep_sorted(self@, not_at_time(appointment@.0, appointment@.1));
            lemma_insert_by_time_sorted(
                keep(self@, not_at_time(appointment@.0, appointment@.1)),
                appointment@,
            );
        }
        retain_other_times(&mut self.appointments, appointment.time);
        insert_sorted(&mut self.appointments, appointment);
    }
}

/// Some element sits at exactly (h, m).
pub open spec fn has_time(s: Seq<ApptView>, h: int, m: int) -> bool {
    exists|i: int| 0 <= i < s.len() && same_time(#[trigger] s[i], h, m)
}

/// Index of the first element at exactly (h, m), or `s.len()` when none is.
pub open spec fn index_of_time(s: Seq<ApptView>, h: int, m: int) -> int
    decreases s.len(),
{
    if s.len() == 0 {
        0
    } else if same_time(s[0], h, m) {
        0
    } else {
        1 + index_of_time(s.subrange(1, s.len() as int), h, m)
    }
}

/// `index_of_time` points at a match when one exists, and nothing before it
/// matches.
pub proof fn lemma_index_of_time(s: Seq<ApptView>, h: int, m: int)
    ensures
        0 <= index_of_time(s, h, m) <= s.len(),
        index_of_time(s, h, m) < s.len() ==> same_time(s[index_of_time(s, h, m)], h, m),
        forall|j: int| 0 <= j < index_of_time(s, h, m) ==> !same_time(#[trigger] s[j], h, m),
        has_time(s, h, m) <==> index_of_time(s, h, m) < s.len(),
    decreases s.len(),
{
    if s.len() > 0 && !same_time(s[0], h, m) {
        let tail = s.subrange(1, s.len() as int);
        lemma_index_of_time(tail, h, m);
        assert forall|j: int| 0 <= j < index_of_time(s, h, m) implies !same_time(
            #[trigger] s[j],
            h,
            m,
        ) by {
            if j > 0 {
                assert(!same_time(tail[j - 1], h, m));
                assert(s[j] == tail[j - 1]);
            }
        }
        if has_time(s, h, m) {
            let i = choose|i: int| 0 <= i < s.len() && same_time(s[i], h, m);
            assert(i > 0 && tail[i - 1] == s[i]);
            assert(has_time(tail, h, m));
        }
        if has_time(tail, h, m) {
            let i = choose|i: int| 0 <= i < tail.len() && same_time(tail[i], h, m);
            assert(s[i + 1] == tail[i]);
            assert(has_time(s, h, m));
        }
    }
}

/// Taking one element out of a sorted, well-formed run leaves it sorted and
/// well formed.
proof fn lemma_remove_index_sorted(s: Seq<ApptView>, idx: int)
    requires
        sorted_by_time(s),
        all_wf(s),
        0 <= idx < s.len(),
    ensures
        sorted_by_time(s.remove(idx)),
        all_wf(s.remove(idx)),
{
    let r = s.remove(idx);
    assert forall|i: int, j: int| 0 <= i < j < r.len() implies view_le(
        #[trigger] r[i],
        #[trigger] r[j],
    ) by {
        let si = if i < idx {
            i
        } else {
            i + 1
        };
        let sj = if j < idx {
            j
        } else {
            j + 1
        };
        assert(r[i] == s[si] && r[j] == s[sj]);
        assert(view_le(s[si], s[sj]));
    }
    assert forall|i: int| 0 <= i < r.len() implies wf_view(#[trigger] r[i]) by {
        let si = if i < idx {
            i
        } else {
            i + 1
        };
        assert(r[i] == s[si]);
        assert(wf_view(s[si]));
    }
}

/// Removes every appointment at exactly the given time, keeping the rest in
/// order.
fn retain_other_times(items: &mut Vec<Appointment>, time: AppointmentTime)
    ensures
        views_of(final(items)@) == keep(
            views_of(old(items)@),
            not_at_time(time.hour as int, time.minutes as int),
        ),
{
    let ghost s = views_of(old(items)@);
    let ghost p = not_at_time(time.hour as int, time.minutes as int);
    let mut out: Vec<Appointment> = Vec::new();
    let mut k: usize = 0;
    while k < items.len()
        invariant
            k <= items@.len(),
            *items == *old(items),
            s == views_of(old(items)@),
            p == not_at_time(time.hour as int, time.minutes as int),
            views_of(out@) == keep(s.take(k as int), p),
        decreases items@.len() - k,
    {
        let ghost prev = views_of(out@);
        let keep_this = !(items[k].time == time);
        if keep_this {
            let a = items[k].clone();
            out.push(a);
        }
        proof {
            assert(s.take(k + 1).drop_last() =~= s.take(k as int));
            assert(s.take(k + 1).last() == s[k as int]);
            assert(s[k as int] == items@[k as int]@);
            if keep_this {
                assert(views_of(out@) =~= prev.push(items@[k as int]@));
            }
        }
        k += 1;
    }
    proof {
        assert(s.take(s.len() as int) =~= s);
    }
    *items = out;
}

/// Keeps only the appointments strictly after `rt`, in order.
fn retain_after(items: &mut Vec<Appointment>, rt: AppointmentTime)
    ensures
        views_of(final(items)@) == keep(
            views_of(old(items)@),
            after_time(rt.hour as int, rt.minutes as int),
        ),
{
    let ghost s = views_of(old(items)@);
    let ghost p = after_time(rt.hour as int, rt.minutes as int);
    let mut out: Vec<Appointment> = Vec::new();
    let mut k: usize = 0;
    while k < items.len()
        invariant
            k <= items@.len(),
            *items == *old(items),
            s == views_of(old(items)@),
            p == after_time(rt.hour as int, rt.minutes as int),
            views_of(out@) == keep(s.take(k as int), p),
        decreases items@.len() - k,
    {
        let ghost prev = views_of(out@);
        let keep_this = !items[k].is_equal_or_earlier_than(&rt);
        if keep_this {
            let a = items[k].clone();
            out.push(a);
        }
        proof {
            assert(s.take(k + 1).drop_last() =~= s.take(k as int));
            assert(s.take(k + 1).last() == s[k as int]);
            assert(s[k as int] == items@[k as int]@);
            if keep_this {
                assert(views_of(out@) =~= prev.push(items@[k as int]@));
            }
        }
        k += 1;
    }
    proof {
        assert(s.take(s.len() as int) =~= s);
    }
    *items = out;
}

/// Keeps only the appointments strictly after `rt` and at or before `hi`,
/// in order.
fn retain_window(items: &mut Vec<Appointment>, rt: AppointmentTime, hi: AppointmentTime)
    ensures
        views_of(final(items)@) == keep(
            views_of(old(items)@),
            within_window(rt.hour as int, rt.minutes as int, hi.hour as int, hi.minutes as int),
        ),
{
    let ghost s = views_of(old(items)@);
    let ghost p = within_window(
        rt.hour as int,
        rt.minutes as int,
        hi.hour as int,
        hi.minutes as int,
    );
    let mut out: Vec<Appointment> = Vec::new();
    let mut k: usize = 0;
    while k < items.len()
        invariant
            k <= items@.len(),
            *items == *old(items),
            s == views_of(old(items)@),
            p == within_window(
                rt.hour as int,
                rt.minutes as int,
                hi.hour as int,
                hi.minutes as int,
            ),
            views_of(out@) == keep(s.take(k as int), p),
        decreases items@.len() - k,
    {
        let ghost prev = views_of(out@);
        let keep_this = !items[k].is_equal_or_earlier_than(&rt) && items[
            k
        ].is_equal_or_earlier_than(&hi);
        if keep_this {
            let a = items[k].clone();
            out.push(a);
        }
        proof {
            assert(s.take(k + 1).drop_last() =~= s.take(k as int));
            assert(s.take(k + 1).last() == s[k as int]);
            assert(s[k as int] == items@[k as int]@);
            if keep_this {
                assert(views_of(out@) =~= prev.push(items@[k as int]@));
            }
        }
        k += 1;
    }
    proof {
        assert(s.take(s.len() as int) =~= s);
    }
    *items = out;
}

/// Puts an appointment into its sorted place, after any already there with
/// the same time.
fn insert_sorted(items: &mut Vec<Appointment>, appointment: Appointment)
    ensures
        views_of(final(items)@) == insert_by_time(views_of(old(items)@), appointment@),
{
    let ghost s = views_of(old(items)@);
    let mut idx: usize = 0;
    while idx < items.len() && items[idx].is_equal_or_earlier_than(&appointment.time)
        invariant
            idx <= items@.len(),
            *items == *old(items),
            s == views_of(old(items)@),
            forall|j: int| 0 <= j < idx ==> view_le(#[trigger] s[j], appointment@),
        decreases items@.len() - idx,
    {
        idx += 1;
    }
    proof {
        lemma_insert_by_time_at(s, appointment@, idx as int);
    }
    items.insert(idx, appointment);
    proof {
        assert(views_of(items@) =~= s.take(idx as int) + seq![appointment@] + s.skip(idx as int));
    }
}

} // verus!
