//! Keyframes: times in ascending order, and what lies between them.

use crate::float_bits::{eq_of, equal, is_nan, lt, lt_of, total, total_key};
use vstd::prelude::*;

verus! {

/// Times and values after keyframe `index`: a later time is added, an equal one replaces the last
/// values, and an earlier one is left out.
pub open spec fn frames_upto(times: Seq<u32>, values: Seq<u32>, components: int, n: int) -> (
    Seq<u32>,
    Seq<u32>,
)
    decreases n,
{
    if n <= 0 {
        (Seq::empty(), Seq::empty())
    } else {
        let (t, v) = frames_upto(times, values, components, n - 1);
        let time = times[n - 1];
        let frame = values.subrange((n - 1) * components, n * components);
        if t.len() == 0 || lt_of(t.last(), time) {
            (t.push(time), v + frame)
        } else if eq_of(t.last(), time) {
            (t, v.take(v.len() - components) + frame)
        } else {
            (t, v)
        }
    }
}

/// Times and values without repeated times. Where times and values do not belong together they
/// stay as they are.
pub open spec fn deduplicated(times: Seq<u32>, values: Seq<u32>, components: int) -> (
    Seq<u32>,
    Seq<u32>,
) {
    if components == 0 || values.len() / (components as nat) != times.len() {
        (times, values)
    } else {
        frames_upto(times, values, components, times.len() as int)
    }
}

/// As many values as times ask for.
proof fn lemma_frames_sizes(times: Seq<u32>, values: Seq<u32>, components: int, n: int)
    requires
        components > 0,
        0 <= n <= times.len(),
        times.len() * components <= values.len(),
    ensures
        frames_upto(times, values, components, n).1.len() == components * frames_upto(
            times,
            values,
            components,
            n,
        ).0.len(),
        frames_upto(times, values, components, n).0.len() <= n,
        n > 0 ==> frames_upto(times, values, components, n).0.len() > 0,
    decreases n,
{
    if n > 0 {
        lemma_frames_sizes(times, values, components, n - 1);
        let (t, v) = frames_upto(times, values, components, n - 1);
        assert(0 <= (n - 1) * components <= n * components <= values.len()) by (nonlinear_arith)
            requires
                0 < n <= times.len(),
                components > 0,
                times.len() * components <= values.len(),
        ;
        assert(n * components - (n - 1) * components == components) by (nonlinear_arith);
        let k = t.len() as int;
        assert(components * (k + 1) == components * k + components) by (nonlinear_arith);
        if k > 0 {
            assert(components * k >= components) by (nonlinear_arith)
                requires
                    k >= 1,
                    components > 0,
            ;
        }
    }
}

/// Copies a range of values behind a list.
fn append_range(out: &mut Vec<u32>, values: &Vec<u32>, start: usize, end: usize)
    requires
        start <= end <= values@.len(),
    ensures
        final(out)@ == old(out)@ + values@.subrange(start as int, end as int),
{
    let ghost before = out@;
    let mut i: usize = start;
    while i < end
        invariant
            start <= i <= end <= values@.len(),
            out@ == before + values@.subrange(start as int, i as int),
        decreases end - i,
    {
        out.push(values[i]);
        i += 1;
        assert(out@ =~= before + values@.subrange(start as int, i as int));
    }
    assert(out@ =~= before + values@.subrange(start as int, end as int));
}

/// Leaves out repeated times. Of several values at one time the last counts.
pub fn deduplicate_keyframes(times: Vec<u32>, values: Vec<u32>, components: usize) -> (r: (
    Vec<u32>,
    Vec<u32>,
))
    ensures
        (r.0@, r.1@) == deduplicated(times@, values@, components as int),
{
    if components == 0 || values.len() / components != times.len() {
        return (times, values);
    }
    let length: usize = values.len();
    let count: usize = times.len();
    proof {
        vstd::arithmetic::div_mod::lemma_fundamental_div_mod(length as int, components as int);
        assert(count * components <= length) by (nonlinear_arith)
            requires
                length == components * (length as int / components as int) + length as int
                    % components as int,
                count == length as int / components as int,
                length as int % components as int >= 0,
        ;
    }
    let mut filtered_times: Vec<u32> = Vec::new();
    let mut filtered_values: Vec<u32> = Vec::new();
    let mut i: usize = 0;
    while i < count
        invariant
            i <= count,
            count == times@.len(),
            length == values@.len(),
            components > 0,
            count * components <= length,
            (filtered_times@, filtered_values@) == frames_upto(
                times@,
                values@,
                components as int,
                i as int,
            ),
        decreases count - i,
    {
        proof {
            lemma_frames_sizes(times@, values@, components as int, i as int);
            assert(0 <= i * components <= (i + 1) * components <= length) by (nonlinear_arith)
                requires
                    0 <= i < count,
                    components > 0,
                    count * components <= length,
            ;
        }
        let start: usize = i * components;
        let end: usize = (i + 1) * components;
        let time: u32 = times[i];
        let n: usize = filtered_times.len();
        if n == 0 || lt(filtered_times[n - 1], time) {
            filtered_times.push(time);
            append_range(&mut filtered_values, &values, start, end);
        } else if equal(filtered_times[n - 1], time) {
            proof {
                assert(components * n >= components) by (nonlinear_arith)
                    requires
                        n >= 1,
                        components > 0,
                ;
            }
            let keep: usize = filtered_values.len() - components;
            let ghost before = filtered_values@;
            filtered_values.truncate(keep);
            assert(filtered_values@ =~= before.take(keep as int));
            append_range(&mut filtered_values, &values, start, end);
        }
        i += 1;
    }
    (filtered_times, filtered_values)
}

/// Whether every time is before all later ones.
pub open spec fn times_ascend(times: Seq<u32>) -> bool {
    forall|i: int, j: int| 0 <= i < j < times.len() ==> lt_of(#[trigger] times[i], #[trigger] times[j])
}

/// Times without repetition ascend strictly; they are times that were there; and there are
/// exactly as many values as times ask for.
pub proof fn law_frames_ascend(times: Seq<u32>, values: Seq<u32>, components: int, n: int)
    requires
        components > 0,
        0 <= n <= times.len(),
        times.len() * components <= values.len(),
    ensures
        times_ascend(frames_upto(times, values, components, n).0),
        frames_upto(times, values, components, n).1.len() == components * frames_upto(
            times,
            values,
            components,
            n,
        ).0.len(),
        forall|i: int|
            0 <= i < frames_upto(times, values, components, n).0.len() ==> times.contains(
                #[trigger] frames_upto(times, values, components, n).0[i],
            ),
    decreases n,
{
    lemma_frames_sizes(times, values, components, n);
    if n > 0 {
        law_frames_ascend(times, values, components, n - 1);
        let (t, _) = frames_upto(times, values, components, n - 1);
        let after = frames_upto(times, values, components, n).0;
        assert forall|i: int, j: int| 0 <= i < j < after.len() implies lt_of(
            #[trigger] after[i],
            #[trigger] after[j],
        ) by {
            if j < t.len() {
                assert(lt_of(t[i], t[j]));
            } else if i < t.len() - 1 {
                assert(lt_of(t[i], t.last()));
            }
        }
        assert forall|i: int| 0 <= i < after.len() implies times.contains(#[trigger] after[i]) by {
            if i < t.len() {
                assert(times.contains(t[i]));
            } else {
                assert(times[n - 1] == after[i]);
            }
        }
    }
}

/// The last keyframe at a time is the one whose values are kept, as long as no later time follows
/// it.
pub proof fn law_last_value_at_a_time(times: Seq<u32>, values: Seq<u32>, components: int, n: int)
    requires
        components > 0,
        0 < n <= times.len(),
        times.len() * components <= values.len(),
        frames_upto(times, values, components, n - 1).0.len() == 0 || lt_of(
            frames_upto(times, values, components, n - 1).0.last(),
            times[n - 1],
        ) || eq_of(frames_upto(times, values, components, n - 1).0.last(), times[n - 1]),
    ensures
        ({
            let v = frames_upto(times, values, components, n).1;
            v.len() >= components && v.skip(v.len() - components) == values.subrange(
                (n - 1) * components,
                n * components,
            )
        }),
{
    lemma_frames_sizes(times, values, components, n - 1);
    let (t, v) = frames_upto(times, values, components, n - 1);
    let frame = values.subrange((n - 1) * components, n * components);
    assert(0 <= (n - 1) * components <= n * components <= values.len()) by (nonlinear_arith)
        requires
            0 < n <= times.len(),
            components > 0,
            times.len() * components <= values.len(),
    ;
    assert(n * components - (n - 1) * components == components) by (nonlinear_arith);
    assert(frame.len() == components);
    if t.len() > 0 {
        let k = t.len() as int;
        assert(components * k >= components) by (nonlinear_arith)
            requires
                k >= 1,
                components > 0,
        ;
    }
    let after = frames_upto(times, values, components, n).1;
    assert(after.skip(after.len() - components) =~= frame);
}

/// Keyframes whose times ascend are all kept.
proof fn lemma_ascending_frames_stay(times: Seq<u32>, values: Seq<u32>, components: int, n: int)
    requires
        components > 0,
        times_ascend(times),
        values.len() == components * times.len(),
        0 <= n <= times.len(),
    ensures
        frames_upto(times, values, components, n) == (times.take(n), values.take(components * n)),
    decreases n,
{
    if n > 0 {
        lemma_ascending_frames_stay(times, values, components, n - 1);
        assert(0 <= (n - 1) * components <= n * components <= values.len()) by (nonlinear_arith)
            requires
                0 < n <= times.len(),
                components > 0,
                values.len() == components * times.len(),
        ;
        assert(components * (n - 1) == (n - 1) * components) by (nonlinear_arith);
        assert(components * n == n * components) by (nonlinear_arith);
        let frame = values.subrange((n - 1) * components, n * components);
        assert(times.take(n - 1).push(times[n - 1]) =~= times.take(n));
        assert(values.take((n - 1) * components) + frame =~= values.take(n * components));
        if n > 1 {
            assert(lt_of(times[n - 2], times[n - 1]));
        }
    } else {
        assert(components * n == 0) by (nonlinear_arith)
            requires
                n == 0,
        ;
        assert(times.take(n) =~= Seq::<u32>::empty());
        assert(values.take(0) =~= Seq::<u32>::empty());
    }
}

/// Leaving out repeated times a second time changes nothing more.
pub proof fn law_deduplicating_twice_is_once(times: Seq<u32>, values: Seq<u32>, components: int)
    requires
        components >= 0,
    ensures
        ({
            let (t, v) = deduplicated(times, values, components);
            deduplicated(t, v, components) == (t, v)
        }),
{
    let (t, v) = deduplicated(times, values, components);
    if components > 0 && values.len() / (components as nat) == times.len() {
        let n = times.len() as int;
        vstd::arithmetic::div_mod::lemma_fundamental_div_mod(values.len() as int, components);
        assert(times.len() * components <= values.len()) by (nonlinear_arith)
            requires
                values.len() == components * times.len() + values.len() as int % components,
                values.len() as int % components >= 0,
        ;
        law_frames_ascend(times, values, components, n);
        lemma_ascending_frames_stay(t, v, components, t.len() as int);
        assert(t.take(t.len() as int) =~= t);
        assert(v.take(v.len() as int) =~= v);
    }
}

/// A time is kept if it is later than all times before it, and the last time kept is the latest so
/// far.
pub proof fn law_kept_times_are_running_maxima(
    times: Seq<u32>,
    values: Seq<u32>,
    components: int,
    n: int,
)
    requires
        0 < n <= times.len(),
        forall|k: int| 0 <= k < n ==> !is_nan(#[trigger] times[k]),
    ensures
        frames_upto(times, values, components, n).0 == if forall|k: int|
            0 <= k < n - 1 ==> lt_of(#[trigger] times[k], times[n - 1]) {
            frames_upto(times, values, components, n - 1).0.push(times[n - 1])
        } else {
            frames_upto(times, values, components, n - 1).0
        },
        frames_upto(times, values, components, n).0.len() > 0,
        times.take(n).contains(frames_upto(times, values, components, n).0.last()),
        forall|k: int|
            0 <= k < n ==> !lt_of(
                frames_upto(times, values, components, n).0.last(),
                #[trigger] times[k],
            ),
    decreases n,
{
    let before = frames_upto(times, values, components, n - 1).0;
    let after = frames_upto(times, values, components, n).0;
    let time = times[n - 1];
    assert(times.take(n)[n - 1] == time);
    if n > 1 {
        law_kept_times_are_running_maxima(times, values, components, n - 1);
        let i = choose|i: int|
            0 <= i < n - 1 && #[trigger] times.take(n - 1)[i] == before.last();
        assert(times[i] == before.last());
        assert(times.take(n)[i] == before.last());
    }
}

/// Times and values fit for a channel: there are times, and as many values as they ask for.
pub open spec fn settled(times: Seq<u32>, values: Seq<u32>, components: int) -> Option<
    (Seq<u32>, Seq<u32>),
> {
    let (t, v) = deduplicated(times, values, components);
    if t.len() == 0 || v.len() / (components as nat) != t.len() {
        None
    } else {
        Some((t, v))
    }
}

/// Brings times and values into the form that a channel needs.
pub fn settle(times: Vec<u32>, values: Vec<u32>, components: usize) -> (r: Option<
    (Vec<u32>, Vec<u32>),
>)
    requires
        components > 0,
    ensures
        match r {
            Some((t, v)) => settled(times@, values@, components as int) == Some((t@, v@)),
            None => settled(times@, values@, components as int) is None,
        },
{
    let (t, v) = deduplicate_keyframes(times, values, components);
    if t.len() == 0 || v.len() / components != t.len() {
        None
    } else {
        Some((t, v))
    }
}

/// How many of the first `n` times come before a time.
pub open spec fn earlier(times: Seq<u32>, time: u32, n: int) -> int
    decreases n,
{
    if n <= 0 {
        0
    } else {
        earlier(times, time, n - 1) + if total_key(times[n - 1]) < total_key(time) {
            1int
        } else {
            0int
        }
    }
}

/// What a track's value at a time is made of.
#[derive(Clone, Copy, Debug, PartialEq, Eq, Structural)]
pub enum Sample {
    /// The track has no keyframes: zero.
    Zero,
    /// The value of a keyframe.
    At(usize),
    /// A value between those of two neighboring keyframes.
    Between(usize, usize),
}

/// What a track's value at a time is made of: the keyframe at that time, the first or the last
/// one for times outside, and the two around it otherwise.
pub open spec fn sample_of(times: Seq<u32>, time: u32) -> Sample {
    let n = times.len() as int;
    let at = earlier(times, time, n);
    if n == 0 {
        Sample::Zero
    } else if at < n && total_key(times[at]) == total_key(time) {
        Sample::At(at as usize)
    } else if at == 0 {
        Sample::At(0)
    } else if at >= n {
        Sample::At((n - 1) as usize)
    } else {
        Sample::Between((at - 1) as usize, at as usize)
    }
}

/// Not more times come before a time than there are.
proof fn lemma_earlier(times: Seq<u32>, time: u32, n: int)
    requires
        0 <= n <= times.len(),
    ensures
        0 <= earlier(times, time, n) <= n,
    decreases n,
{
    if n > 0 {
        lemma_earlier(times, time, n - 1);
    }
}

/// Finds what a track's value at a time is made of.
pub fn sample_scalar_track(times: &Vec<u32>, time: u32) -> (r: Sample)
    ensures
        r == sample_of(times@, time),
{
    let n: usize = times.len();
    if n == 0 {
        return Sample::Zero;
    }
    let key: i64 = total(time);
    let mut at: usize = 0;
    let mut i: usize = 0;
    while i < n
        invariant
            i <= n == times@.len(),
            at <= i,
            key == total_key(time),
            at == earlier(times@, time, i as int),
        decreases n - i,
    {
        if total(times[i]) < key {
            at += 1;
        }
        i += 1;
    }
    if at < n && total(times[at]) == key {
        Sample::At(at)
    } else if at == 0 {
        Sample::At(0)
    } else if at >= n {
        Sample::At(n - 1)
    } else {
        Sample::Between(at - 1, at)
    }
}

/// Numbers in their order are in the total order too.
proof fn lemma_lt_is_total(a: u32, b: u32)
    requires
        lt_of(a, b),
    ensures
        total_key(a) < total_key(b),
{
}

/// In ascending times exactly the first ones come before a time.
proof fn lemma_earlier_is_prefix(times: Seq<u32>, time: u32, n: int, k: int)
    requires
        times_ascend(times),
        0 <= k < n <= times.len(),
    ensures
        total_key(times[k]) < total_key(time) <==> k < earlier(times, time, n),
    decreases n,
{
    lemma_earlier(times, time, n - 1);
    if k < n - 1 {
        lemma_earlier_is_prefix(times, time, n - 1, k);
        if total_key(times[n - 1]) < total_key(time) {
            assert(lt_of(times[k], times[n - 1]));
            lemma_lt_is_total(times[k], times[n - 1]);
            if n - 1 > 0 {
                lemma_earlier_all(times, time, n - 1);
            }
        }
    } else if total_key(times[n - 1]) < total_key(time) {
        lemma_earlier_all(times, time, n - 1);
    } else {
        assert(earlier(times, time, n) == earlier(times, time, n - 1));
    }
}

/// If a time comes before another, all times before it do.
proof fn lemma_earlier_all(times: Seq<u32>, time: u32, n: int)
    requires
        times_ascend(times),
        0 <= n < times.len(),
        total_key(times[n]) < total_key(time),
    ensures
        earlier(times, time, n) == n,
    decreases n,
{
    if n > 0 {
        assert(lt_of(times[n - 1], times[n]));
        lemma_lt_is_total(times[n - 1], times[n]);
        lemma_earlier_all(times, time, n - 1);
    }
}

/// The two keyframes that a value lies between are neighbors, the time is after the first and
/// before the second; and a keyframe at the very time is used as it is.
pub proof fn law_sample_brackets_time(times: Seq<u32>, time: u32)
    requires
        times_ascend(times),
        0 < times.len() <= usize::MAX,
    ensures
        match sample_of(times, time) {
            Sample::Zero => false,
            Sample::At(i) => i < times.len() && (total_key(times[i as int]) == total_key(time) || (i
                == 0 && total_key(time) < total_key(times[0])) || (i == times.len() - 1
                && total_key(times.last()) < total_key(time))),
            Sample::Between(i, j) => j == i + 1 && j < times.len() && total_key(times[i as int])
                < total_key(time) < total_key(times[j as int]),
        },
{
    let n = times.len() as int;
    let at = earlier(times, time, n);
    lemma_earlier(times, time, n);
    if at < n {
        lemma_earlier_is_prefix(times, time, n, at);
    }
    if at > 0 {
        lemma_earlier_is_prefix(times, time, n, at - 1);
    }
}

/// Where a time goes in an ordered list: behind all that are not greater.
pub open spec fn time_place(list: Seq<u32>, time: u32, from: int) -> int
    decreases list.len() - from,
{
    if from < 0 || from >= list.len() || total_key(list[from]) > total_key(time) {
        from
    } else {
        time_place(list, time, from + 1)
    }
}

/// The first `n` times in order.
pub open spec fn ordered(times: Seq<u32>, n: int) -> Seq<u32>
    decreases n,
{
    if n <= 0 {
        Seq::empty()
    } else {
        let before = ordered(times, n - 1);
        before.insert(time_place(before, times[n - 1], 0), times[n - 1])
    }
}

/// The first `n` of ordered times without those equal to the one before.
pub open spec fn distinct(list: Seq<u32>, n: int) -> Seq<u32>
    decreases n,
{
    if n <= 0 {
        Seq::empty()
    } else {
        let before = distinct(list, n - 1);
        if before.len() > 0 && eq_of(before.last(), list[n - 1]) {
            before
        } else {
            before.push(list[n - 1])
        }
    }
}

/// All times of several tracks, in order, each once.
pub open spec fn merged(times: Seq<u32>) -> Seq<u32> {
    let list = ordered(times, times.len() as int);
    distinct(list, list.len() as int)
}

/// A time's place lies within the list, behind smaller ones and before greater ones.
proof fn lemma_time_place(list: Seq<u32>, time: u32, from: int)
    requires
        0 <= from <= list.len(),
    ensures
        from <= time_place(list, time, from) <= list.len(),
        forall|k: int|
            from <= k < time_place(list, time, from) ==> total_key(#[trigger] list[k])
                <= total_key(time),
        time_place(list, time, from) < list.len() ==> total_key(
            list[time_place(list, time, from)],
        ) > total_key(time),
    decreases list.len() - from,
{
    if from < list.len() && total_key(list[from]) <= total_key(time) {
        lemma_time_place(list, time, from + 1);
    }
}

/// Puts all times of several tracks in order, each once.
pub fn merge_times(times: &Vec<u32>) -> (r: Vec<u32>)
    ensures
        r@ == merged(times@),
{
    let mut list: Vec<u32> = Vec::new();
    let mut i: usize = 0;
    while i < times.len()
        invariant
            i <= times@.len(),
            list@ == ordered(times@, i as int),
        decreases times@.len() - i,
    {
        let time: u32 = times[i];
        let key: i64 = total(time);
        let mut at: usize = 0;
        while at < list.len() && total(list[at]) <= key
            invariant
                at <= list@.len(),
                key == total_key(time),
                time_place(list@, time, 0) == time_place(list@, time, at as int),
            decreases list@.len() - at,
        {
            at += 1;
        }
        proof {
            lemma_time_place(list@, time, 0);
        }
        list.insert(at, time);
        i += 1;
    }
    let mut out: Vec<u32> = Vec::new();
    let mut k: usize = 0;
    while k < list.len()
        invariant
            k <= list@.len(),
            out@ == distinct(list@, k as int),
        decreases list@.len() - k,
    {
        let n: usize = out.len();
        if n > 0 && equal(out[n - 1], list[k]) {
        } else {
            out.push(list[k]);
        }
        k += 1;
    }
    out
}

/// Whether a list is in order.
pub open spec fn in_order(list: Seq<u32>) -> bool {
    forall|i: int, j: int|
        0 <= i < j < list.len() ==> total_key(#[trigger] list[i]) <= total_key(#[trigger] list[j])
}

/// Ordering puts times in order and keeps them all.
pub proof fn law_ordered_times(times: Seq<u32>, n: int)
    requires
        0 <= n <= times.len(),
    ensures
        in_order(ordered(times, n)),
        ordered(times, n).to_multiset() == times.take(n).to_multiset(),
    decreases n,
{
    broadcast use vstd::seq_lib::group_to_multiset_ensures;

    if n > 0 {
        law_ordered_times(times, n - 1);
        let before = ordered(times, n - 1);
        let time = times[n - 1];
        let at = time_place(before, time, 0);
        lemma_time_place(before, time, 0);
        let after = before.insert(at, time);
        assert forall|i: int, j: int| 0 <= i < j < after.len() implies total_key(
            #[trigger] after[i],
        ) <= total_key(#[trigger] after[j]) by {
            let i0 = if i < at {
                i
            } else {
                i - 1
            };
            let j0 = if j < at {
                j
            } else {
                j - 1
            };
            if i == at {
                assert(after[j] == before[j0]);
                if j0 > at {
                    assert(total_key(before[at]) <= total_key(before[j0]));
                }
            } else if j == at {
                assert(after[i] == before[i]);
            } else {
                assert(after[i] == before[i0] && after[j] == before[j0]);
            }
        }
        assert(times.take(n) =~= times.take(n - 1).push(time));
        assert(after =~= before.take(at).push(time) + before.skip(at));
        assert(before =~= before.take(at) + before.skip(at));
        lemma_insert_multiset(before, at, time);
    } else {
        assert(times.take(n) =~= Seq::<u32>::empty());
    }
}

/// What an insertion adds.
proof fn lemma_insert_multiset(list: Seq<u32>, at: int, time: u32)
    requires
        0 <= at <= list.len(),
    ensures
        list.insert(at, time).to_multiset() == list.to_multiset().insert(time),
{
    vstd::seq_lib::to_multiset_insert(list, at, time);
}

/// After merging no two neighboring times are equal, and the times are still in order.
pub proof fn law_distinct_times(list: Seq<u32>, n: int)
    requires
        in_order(list),
        0 <= n <= list.len(),
    ensures
        in_order(distinct(list, n)),
        forall|i: int|
            0 <= i < distinct(list, n).len() - 1 ==> !eq_of(
                #[trigger] distinct(list, n)[i],
                distinct(list, n)[i + 1],
            ),
        forall|i: int|
            0 <= i < distinct(list, n).len() ==> total_key(#[trigger] distinct(list, n)[i])
                <= total_key(list[n - 1]),
    decreases n,
{
    if n > 0 {
        law_distinct_times(list, n - 1);
        let before = distinct(list, n - 1);
        let after = distinct(list, n);
        if n > 1 {
            assert(total_key(list[n - 2]) <= total_key(list[n - 1]));
        }
        assert forall|i: int, j: int| 0 <= i < j < after.len() implies total_key(
            #[trigger] after[i],
        ) <= total_key(#[trigger] after[j]) by {
            if j < before.len() {
                assert(total_key(before[i]) <= total_key(before[j]));
            } else {
                assert(total_key(before[i]) <= total_key(list[n - 2]));
            }
        }
        assert forall|i: int| 0 <= i < after.len() - 1 implies !eq_of(
            #[trigger] after[i],
            after[i + 1],
        ) by {
            if i + 1 < before.len() {
                assert(!eq_of(before[i], before[i + 1]));
            }
        }
    }
}

/// Of equal numbers in a list one is kept.
proof fn lemma_distinct_holds(list: Seq<u32>, n: int, i: int)
    requires
        0 <= i < n <= list.len(),
        !is_nan(list[i]),
    ensures
        exists|j: int| 0 <= j < distinct(list, n).len() && eq_of(#[trigger] distinct(list, n)[j], list[i]),
    decreases n,
{
    let before = distinct(list, n - 1);
    let after = distinct(list, n);
    if i == n - 1 {
        assert(eq_of(after[after.len() - 1], list[i]));
    } else {
        lemma_distinct_holds(list, n - 1, i);
        let j = choose|j: int| 0 <= j < before.len() && eq_of(#[trigger] before[j], list[i]);
        assert(after[j] == before[j]);
    }
}

/// What is kept of a list was in it.
proof fn lemma_distinct_is_within(list: Seq<u32>, n: int, j: int)
    requires
        0 <= n <= list.len(),
        0 <= j < distinct(list, n).len(),
    ensures
        list.contains(distinct(list, n)[j]),
    decreases n,
{
    if n > 0 {
        let before = distinct(list, n - 1);
        if j < before.len() {
            lemma_distinct_is_within(list, n - 1, j);
        } else {
            assert(list[n - 1] == distinct(list, n)[j]);
        }
    }
}

/// Merging keeps every time, and adds none: each time is equal to one of the merged ones, and each
/// of those is one of the times.
pub proof fn law_merged_times_are_the_times(times: Seq<u32>, i: int, j: int)
    requires
        0 <= i < times.len(),
    ensures
        !is_nan(times[i]) ==> exists|k: int|
            0 <= k < merged(times).len() && eq_of(#[trigger] merged(times)[k], times[i]),
        0 <= j < merged(times).len() ==> times.contains(merged(times)[j]),
{
    broadcast use vstd::seq_lib::group_to_multiset_ensures;

    let n = times.len() as int;
    law_ordered_times(times, n);
    let list = ordered(times, n);
    assert(times.take(n) =~= times);
    assert(times.to_multiset().count(times[i]) > 0);
    assert(list.contains(times[i]));
    let p = choose|p: int| 0 <= p < list.len() && list[p] == times[i];
    if !is_nan(times[i]) {
        lemma_distinct_holds(list, list.len() as int, p);
    }
    if 0 <= j < merged(times).len() {
        lemma_distinct_is_within(list, list.len() as int, j);
        let x = merged(times)[j];
        assert(list.to_multiset().count(x) > 0);
        assert(times.contains(x));
    }
}

/// A kept time has the values of a keyframe at that time, all of them and in order.
pub proof fn law_kept_times_have_their_values(
    times: Seq<u32>,
    values: Seq<u32>,
    components: int,
    n: int,
    k: int,
) -> (i: int)
    requires
        components > 0,
        0 <= n <= times.len(),
        times.len() * components <= values.len(),
        0 <= k < frames_upto(times, values, components, n).0.len(),
    ensures
        0 <= i < n,
        ({
            let (t, v) = frames_upto(times, values, components, n);
            &&& t[k] == times[i] || eq_of(t[k], times[i])
            &&& (k + 1) * components <= v.len()
            &&& v.subrange(k * components, (k + 1) * components) == values.subrange(
                i * components,
                (i + 1) * components,
            )
        }),
    decreases n,
{
    lemma_frames_sizes(times, values, components, n - 1);
    lemma_frames_sizes(times, values, components, n);
    let (t, v) = frames_upto(times, values, components, n - 1);
    let (u, w) = frames_upto(times, values, components, n);
    let m = t.len() as int;
    let frame = values.subrange((n - 1) * components, n * components);
    assert(0 <= (n - 1) * components <= n * components <= values.len()) by (nonlinear_arith)
        requires
            0 < n <= times.len(),
            components > 0,
            times.len() * components <= values.len(),
    ;
    assert(n * components - (n - 1) * components == components) by (nonlinear_arith);
    assert((k + 1) * components == k * components + components) by (nonlinear_arith);
    assert((k + 1) * components <= components * u.len()) by (nonlinear_arith)
        requires
            0 <= k < u.len(),
            components > 0,
    ;
    assert(0 <= k * components) by (nonlinear_arith)
        requires
            0 <= k,
            components > 0,
    ;
    let time = times[n - 1];
    let adds = m == 0 || lt_of(t.last(), time);
    let replaces = !adds && eq_of(t.last(), time);
    if adds && k == m {
        assert(k * components == components * m) by (nonlinear_arith)
            requires
                k == m,
        ;
        assert(w.subrange(k * components, (k + 1) * components) =~= frame);
        n - 1
    } else if replaces && k == m - 1 {
        assert(k * components == components * m - components) by (nonlinear_arith)
            requires
                k == m - 1,
        ;
        assert(w.subrange(k * components, (k + 1) * components) =~= frame);
        n - 1
    } else {
        let i = law_kept_times_have_their_values(times, values, components, n - 1, k);
        if replaces {
            assert((k + 1) * components <= components * m - components) by (nonlinear_arith)
                requires
                    k + 1 <= m - 1,
                    components > 0,
            ;
        }
        assert(w.subrange(k * components, (k + 1) * components) =~= v.subrange(
            k * components,
            (k + 1) * components,
        ));
        i
    }
}

/// Keyframes that belong together, as many values for each time as there are components, are used,
/// without the repeated times; those that do not, or that are none, are not.
pub proof fn law_matching_keyframes_are_used(times: Seq<u32>, values: Seq<u32>, components: int)
    requires
        components > 0,
    ensures
        times.len() > 0 && values.len() / (components as nat) == times.len() ==> settled(
            times,
            values,
            components,
        ) == Some(deduplicated(times, values, components)),
        times.len() == 0 || values.len() / (components as nat) != times.len() ==> settled(
            times,
            values,
            components,
        ) is None,
{
    let n = times.len() as int;
    if values.len() / (components as nat) == times.len() {
        vstd::arithmetic::div_mod::lemma_fundamental_div_mod(values.len() as int, components);
        assert(times.len() * components <= values.len()) by (nonlinear_arith)
            requires
                values.len() == components * times.len() + values.len() as int % components,
                values.len() as int % components >= 0,
        ;
        lemma_frames_sizes(times, values, components, n);
        let (t, v) = frames_upto(times, values, components, n);
        let k = t.len() as int;
        vstd::arithmetic::div_mod::lemma_div_multiples_vanish(k, components);
        assert(v.len() as int / components == k);
    }
}

} // verus!
