use vstd::prelude::*;
use crate::model::PingResult;
use crate::model::QueryRange;
use crate::query::BLIP_THRESHOLD_SECS;
use crate::query::chunk_seconds;
use crate::query::should_downsample;
use crate::query::spec_chunk_seconds;
use crate::query::spec_should_downsample;
use crate::timeparse::parse_time;
use crate::timeparse::rfc3339_secs;

verus! {

/// An observation together with the Unix-second value of its timestamp.
pub type TimedPing = (PingResult, i64);

/// The occupancy an observation contributes to a chunk average: its player
/// count, with an absent count treated as zero.
pub open spec fn occ_of(p: PingResult) -> int {
    match p.players_online {
        Some(n) => n as int,
        None => 0,
    }
}

/// The summed occupancy of a run of observations.
pub open spec fn occ_sum(s: Seq<TimedPing>) -> int
    decreases s.len(),
{
    if s.len() == 0 {
        0
    } else {
        occ_of(s[0].0) + occ_sum(s.drop_first())
    }
}

/// Integer division truncating toward zero, as the executable `/` rounds.
pub open spec fn trunc_div(a: int, b: int) -> int {
    if a >= 0 {
        a / b
    } else {
        -((-a) / b)
    }
}

/// The synthetic point one chunk is flushed to: a copy of the chunk's
/// reference member with its occupancy replaced by the chunk average and its
/// timestamp replaced by `stamp_at`.
pub open spec fn averaged_point(refp: PingResult, stamp_at: String, sum: int, count: int) -> PingResult {
    PingResult {
        id: refp.id,
        server_id: refp.server_id,
        pinged_at: stamp_at,
        online: refp.online,
        players_online: Some(trunc_div(sum, count) as i64),
        players_max: refp.players_max,
        version: refp.version,
        motd: refp.motd,
    }
}

/// The walk that chunk-averages a long online segment. `refp` is the current
/// chunk's reference member, `last` the member consumed most recently,
/// `start_t` the chunk's start time, `sum` and `count` the occupancy
/// accumulated so far. A member whose elapsed time since the chunk start
/// reaches the chunk width `w` flushes one averaged point stamped with that
/// member's timestamp and opens a fresh chunk at that member; a partial chunk
/// left at the end flushes one averaged point the same way, stamped with the
/// chunk's last member's timestamp.
pub open spec fn chunk_walk(
    m: Seq<TimedPing>,
    refp: TimedPing,
    last: TimedPing,
    start_t: i64,
    sum: int,
    count: int,
    w: int,
) -> Seq<TimedPing>
    decreases m.len(),
{
    if m.len() == 0 {
        if count > 0 {
            seq![(averaged_point(refp.0, last.0.pinged_at, sum, count), last.1)]
        } else {
            Seq::empty()
        }
    } else {
        let x = m[0];
        let sum2 = sum + occ_of(x.0);
        let count2 = count + 1;
        if x.1 - start_t >= w {
            seq![(averaged_point(refp.0, x.0.pinged_at, sum2, count2), x.1)] + chunk_walk(
                m.drop_first(),
                x,
                x,
                x.1,
                0,
                0,
                w,
            )
        } else {
            chunk_walk(m.drop_first(), refp, x, start_t, sum2, count2, w)
        }
    }
}

/// What one maximal constant-state segment contributes to the output. A
/// segment whose duration is within the blip threshold keeps every member
/// when it has at most two, and its two edge members otherwise; a longer
/// offline segment keeps its two edge members; a longer online segment is
/// chunk-averaged.
pub open spec fn compress_seg_spec(seg: Seq<TimedPing>, w: int, blip: int) -> Seq<TimedPing>
    recommends
        seg.len() > 0,
{
    let dur = seg.last().1 - seg.first().1;
    if dur <= blip {
        if seg.len() <= 2 {
            seg
        } else {
            seq![seg.first(), seg.last()]
        }
    } else if !seg.first().0.online {
        seq![seg.first(), seg.last()]
    } else {
        chunk_walk(seg, seg.first(), seg.first(), seg.first().1, 0, 0, w)
    }
}

/// The length of the maximal leading run of observations sharing the first
/// member's online state.
pub open spec fn first_run_len(s: Seq<TimedPing>) -> int
    decreases s.len(),
{
    if s.len() <= 1 {
        s.len() as int
    } else if s[1].0.online == s[0].0.online {
        1 + first_run_len(s.drop_first())
    } else {
        1
    }
}

/// The downsampled series: the input is split into maximal constant-state
/// segments, each segment is compressed on its own, and the results are
/// concatenated in segment order.
pub open spec fn downsample_pairs(s: Seq<TimedPing>, w: int, blip: int) -> Seq<TimedPing>
    decreases s.len(),
    via downsample_pairs_decreases
{
    if s.len() == 0 {
        Seq::empty()
    } else {
        compress_seg_spec(s.take(first_run_len(s)), w, blip) + downsample_pairs(
            s.skip(first_run_len(s)),
            w,
            blip,
        )
    }
}

#[via_fn]
proof fn downsample_pairs_decreases(s: Seq<TimedPing>, w: int, blip: int) {
    if s.len() > 0 {
        lemma_first_run_len_bounds(s);
    }
}

/// The number of maximal constant-state segments of a sequence.
pub open spec fn segment_count(s: Seq<TimedPing>) -> int
    decreases s.len(),
    via segment_count_decreases
{
    if s.len() == 0 {
        0
    } else {
        1 + segment_count(s.skip(first_run_len(s)))
    }
}

#[via_fn]
proof fn segment_count_decreases(s: Seq<TimedPing>) {
    if s.len() > 0 {
        lemma_first_run_len_bounds(s);
    }
}

/// The number of adjacent pairs of observations that differ in online state.
pub open spec fn transition_count(s: Seq<TimedPing>) -> int
    decreases s.len(),
{
    if s.len() <= 1 {
        0
    } else {
        (if s[0].0.online != s[1].0.online {
            1int
        } else {
            0int
        }) + transition_count(s.drop_first())
    }
}

proof fn lemma_first_run_len_bounds(s: Seq<TimedPing>)
    requires
        s.len() > 0,
    ensures
        1 <= first_run_len(s) <= s.len(),
    decreases s.len(),
{
    if s.len() > 1 && s[1].0.online == s[0].0.online {
        lemma_first_run_len_bounds(s.drop_first());
    }
}

/// The leading run is a run: every member in it shares the first member's
/// state, and the member after it (if any) differs.
proof fn lemma_first_run_properties(s: Seq<TimedPing>)
    requires
        s.len() > 0,
    ensures
        1 <= first_run_len(s) <= s.len(),
        forall|i: int| 0 <= i < first_run_len(s) ==> (#[trigger] s[i]).0.online == s[0].0.online,
        first_run_len(s) < s.len() ==> s[first_run_len(s)].0.online != s[0].0.online,
    decreases s.len(),
{
    lemma_first_run_len_bounds(s);
    if s.len() > 1 && s[1].0.online == s[0].0.online {
        lemma_first_run_properties(s.drop_first());
        assert forall|i: int| 0 <= i < first_run_len(s) implies (#[trigger] s[i]).0.online == s[0].0.online by {
            if i >= 1 {
                assert(s.drop_first()[i - 1] == s[i]);
            }
        }
        if first_run_len(s) < s.len() {
            assert(s.drop_first()[first_run_len(s) - 1] == s[first_run_len(s)]);
        }
    }
}

/// A maximal constant-state prefix of length `k` is exactly the leading run.
proof fn lemma_first_run_len_of_run(s: Seq<TimedPing>, k: int)
    requires
        1 <= k <= s.len(),
        forall|i: int| 0 <= i < k ==> (#[trigger] s[i]).0.online == s[0].0.online,
        k < s.len() ==> s[k].0.online != s[0].0.online,
    ensures
        first_run_len(s) == k,
    decreases s.len(),
{
    if k == 1 {
        if s.len() > 1 {
            assert(s[1].0.online != s[0].0.online);
        }
    } else {
        assert(s[1].0.online == s[0].0.online);
        let d = s.drop_first();
        assert forall|i: int| 0 <= i < k - 1 implies (#[trigger] d[i]).0.online == d[0].0.online by {
            assert(d[i] == s[i + 1]);
            assert(d[0] == s[1]);
        }
        if k - 1 < d.len() {
            assert(d[k - 1] == s[k]);
        }
        lemma_first_run_len_of_run(d, k - 1);
    }
}

/// Each observation of a sequence paired with its timestamp value.
pub open spec fn paired(ps: Seq<PingResult>, ts: Seq<i64>) -> Seq<TimedPing> {
    Seq::new(ps.len(), |i: int| (ps[i], ts[i]))
}

/// The observations of a paired sequence, with the timestamp values dropped.
pub open spec fn points_of(s: Seq<TimedPing>) -> Seq<PingResult> {
    s.map_values(|x: TimedPing| x.0)
}

proof fn lemma_points_of_concat(a: Seq<TimedPing>, b: Seq<TimedPing>)
    ensures
        points_of(a + b) == points_of(a) + points_of(b),
{
    assert(points_of(a + b) =~= points_of(a) + points_of(b));
}

proof fn lemma_occ_sum_push(s: Seq<TimedPing>, x: TimedPing)
    ensures
        occ_sum(s.push(x)) == occ_sum(s) + occ_of(x.0),
    decreases s.len(),
{
    if s.len() == 0 {
        assert(s.push(x)[0] == x);
        assert(s.push(x).drop_first() =~= Seq::<TimedPing>::empty());
        assert(occ_sum(s.push(x)) == occ_of(x.0) + occ_sum(Seq::<TimedPing>::empty()));
    } else {
        assert(s.push(x)[0] == s[0]);
        assert(s.push(x).drop_first() =~= s.drop_first().push(x));
        lemma_occ_sum_push(s.drop_first(), x);
        assert(occ_sum(s.push(x)) == occ_of(s[0].0) + occ_sum(s.drop_first().push(x)));
    }
}

/// The truncated mean of values that each fit in `i64` fits in `i64` itself.
proof fn lemma_trunc_div_in_i64(sum: int, count: int)
    requires
        count >= 1,
        -count * 0x8000_0000_0000_0000 <= sum <= count * 0x7fff_ffff_ffff_ffff,
    ensures
        -0x8000_0000_0000_0000 <= trunc_div(sum, count) <= 0x7fff_ffff_ffff_ffff,
{
    if sum >= 0 {
        vstd::arithmetic::div_mod::lemma_multiply_divide_le(sum, count, 0x7fff_ffff_ffff_ffff);
        vstd::arithmetic::div_mod::lemma_div_pos_is_pos(sum, count);
    } else {
        vstd::arithmetic::div_mod::lemma_multiply_divide_le(-sum, count, 0x8000_0000_0000_0000);
        vstd::arithmetic::div_mod::lemma_div_pos_is_pos(-sum, count);
    }
}

/// Compresses the maximal constant-state segment `raw[start ..= end]` and
/// appends the result to `out`. `times` carries the timestamp value of each
/// observation, `is_online` the segment's state, `per_chunk_secs` the chunk
/// width and `blip_secs` the blip threshold. An inverted index pair appends
/// nothing.
pub fn compress_segment(
    raw: &Vec<PingResult>,
    times: &Vec<i64>,
    start: usize,
    end: usize,
    is_online: bool,
    per_chunk_secs: i64,
    blip_secs: i64,
    out: &mut Vec<PingResult>,
)
    requires
        times@.len() == raw@.len(),
        start <= end ==> end < raw@.len(),
        start <= end ==> is_online == raw@[start as int].online,
    ensures
        start > end ==> final(out)@ == old(out)@,
        start <= end ==> final(out)@ == old(out)@ + points_of(
            compress_seg_spec(
                paired(raw@, times@).subrange(start as int, end + 1),
                per_chunk_secs as int,
                blip_secs as int,
            ),
        ),
{
    if start > end {
        return;
    }
    let ghost seg = paired(raw@, times@).subrange(start as int, end + 1);
    proof {
        assert(seg.first() == (raw@[start as int], times@[start as int]));
        assert(seg.last() == (raw@[end as int], times@[end as int]));
    }

    proof {
        assert(raw.len() == raw@.len());
    }
    let start_time = times[start];
    let end_time = times[end];
    let duration: i128 = (end_time as i128) - (start_time as i128);
    let len = end - start + 1;

    // Short segment: a blip is kept in full when it has at most two members,
    // and collapsed to its two edges otherwise.
    if duration <= blip_secs as i128 {
        if len <= 2 {
            out.push(raw[start].clone());
            if len == 2 {
                out.push(raw[end].clone());
            }
            proof {
                if len == 1 {
                    assert(out@ =~= old(out)@ + points_of(seg));
                } else {
                    assert(seg[1] == (raw@[end as int], times@[end as int]));
                    assert(out@ =~= old(out)@ + points_of(seg));
                }
            }
        } else {
            out.push(raw[start].clone());
            out.push(raw[end].clone());
            proof {
                assert(out@ =~= old(out)@ + points_of(seq![seg.first(), seg.last()]));
            }
        }
        return;
    }

    // Long offline segment: only the two edges are kept.
    if !is_online {
        out.push(raw[start].clone());
        out.push(raw[end].clone());
        proof {
            assert(out@ =~= old(out)@ + points_of(seq![seg.first(), seg.last()]));
        }
        return;
    }

    // Long online segment: chunk-average the occupancy.
    let ghost w = per_chunk_secs as int;
    let mut chunk_ref_idx = start;
    let mut chunk_start_time = times[start];
    let mut chunk_sum: i128 = 0;
    let mut chunk_count: usize = 0;
    let ghost mut chunk_base: int = start as int;
    let ghost mut chunk_last: TimedPing = (raw@[start as int], times@[start as int]);
    let mut idx = start;
    proof {
        assert(seg.skip(0) =~= seg);
        assert(seg.subrange(0, 0) =~= Seq::<TimedPing>::empty());
    }
    while idx <= end
        invariant
            times@.len() == raw@.len(),
            start <= end < raw@.len(),
            raw@.len() <= usize::MAX,
            seg == paired(raw@, times@).subrange(start as int, end + 1),
            w == per_chunk_secs as int,
            start <= idx <= end + 1,
            start as int <= chunk_base <= idx as int,
            start <= chunk_ref_idx <= end,
            chunk_ref_idx <= idx,
            chunk_start_time == times@[chunk_ref_idx as int],
            chunk_count == idx - chunk_base,
            chunk_sum == occ_sum(seg.subrange(chunk_base - start, idx - start)),
            -(chunk_count as int) * 0x8000_0000_0000_0000 <= chunk_sum as int <= (
            chunk_count as int) * 0x7fff_ffff_ffff_ffff,
            chunk_last == (if idx == start {
                seg.first()
            } else {
                seg[idx - 1 - start]
            }),
            out@ + points_of(
                chunk_walk(
                    seg.skip(idx - start),
                    (raw@[chunk_ref_idx as int], times@[chunk_ref_idx as int]),
                    chunk_last,
                    chunk_start_time,
                    chunk_sum as int,
                    chunk_count as int,
                    w,
                ),
            ) == old(out)@ + points_of(
                chunk_walk(seg, seg.first(), seg.first(), seg.first().1, 0, 0, w),
            ),
        decreases end + 1 - idx,
    {
        let ghost rest = seg.skip(idx - start);
        let ghost refp = (raw@[chunk_ref_idx as int], times@[chunk_ref_idx as int]);
        let ghost last_before = chunk_last;
        let ghost old_sum = chunk_sum as int;
        let ghost old_count = chunk_count as int;
        let ghost out_before = out@;

        let p_occ: i64 = match raw[idx].players_online {
            Some(n) => n,
            None => 0,
        };
        let t = times[idx];
        proof {
            assert(rest[0] == seg[idx - start]);
            assert(seg[idx - start] == (raw@[idx as int], times@[idx as int]));
            assert(rest.drop_first() =~= seg.skip(idx + 1 - start));
            assert(seg.subrange(chunk_base - start, idx + 1 - start) =~= seg.subrange(
                chunk_base - start,
                idx - start,
            ).push(seg[idx - start]));
            lemma_occ_sum_push(seg.subrange(chunk_base - start, idx - start), seg[idx - start]);
        }
        chunk_sum = chunk_sum + (p_occ as i128);
        chunk_count = chunk_count + 1;

        if (t as i128) - (chunk_start_time as i128) >= per_chunk_secs as i128 {
            proof {
                lemma_trunc_div_in_i64(chunk_sum as int, chunk_count as int);
                assert(rest[0].1 - chunk_start_time >= w);
                assert(chunk_sum as int == old_sum + occ_of(rest[0].0));
                assert(chunk_count as int == old_count + 1);
            }
            let mut avg_ping = raw[chunk_ref_idx].clone();
            let avg: i128 = chunk_sum / (chunk_count as i128);
            avg_ping.players_online = Some(avg as i64);
            avg_ping.pinged_at = raw[idx].pinged_at.clone();
            out.push(avg_ping);
            proof {
                let flushed = (
                    averaged_point(refp.0, raw@[idx as int].pinged_at, chunk_sum as int, chunk_count as int),
                    times@[idx as int],
                );
                assert(avg as int == trunc_div(chunk_sum as int, chunk_count as int));
                assert(avg_ping == flushed.0);
                assert(chunk_walk(
                    rest,
                    refp,
                    last_before,
                    times@[chunk_ref_idx as int],
                    old_sum,
                    old_count,
                    w,
                ) == seq![flushed] + chunk_walk(
                    rest.drop_first(),
                    rest[0],
                    rest[0],
                    rest[0].1,
                    0,
                    0,
                    w,
                ));
                lemma_points_of_concat(
                    seq![flushed],
                    chunk_walk(rest.drop_first(), rest[0], rest[0], rest[0].1, 0, 0, w),
                );
                assert(points_of(seq![flushed]) =~= seq![flushed.0]);
                assert(out_before + seq![avg_ping] + points_of(
                    chunk_walk(rest.drop_first(), rest[0], rest[0], rest[0].1, 0, 0, w),
                ) =~= out_before + points_of(
                    chunk_walk(
                        rest,
                        refp,
                        last_before,
                        times@[chunk_ref_idx as int],
                        old_sum,
                        old_count,
                        w,
                    ),
                ));
            }
            chunk_ref_idx = idx;
            chunk_start_time = t;
            chunk_sum = 0;
            chunk_count = 0;
            proof {
                chunk_base = idx + 1;
                assert(seg.subrange(chunk_base - start, idx + 1 - start) =~= Seq::<
                    TimedPing,
                >::empty());
            }
        } else {
            proof {
                assert(chunk_walk(
                    rest,
                    refp,
                    last_before,
                    times@[chunk_ref_idx as int],
                    old_sum,
                    old_count,
                    w,
                ) == chunk_walk(
                    rest.drop_first(),
                    refp,
                    rest[0],
                    times@[chunk_ref_idx as int],
                    old_sum + occ_of(rest[0].0),
                    old_count + 1,
                    w,
                ));
            }
        }
        proof {
            chunk_last = rest[0];
        }
        idx = idx + 1;
    }

    // Flush the final partial chunk.
    proof {
        assert(seg.skip(idx - start) =~= Seq::<TimedPing>::empty());
    }
    if chunk_count > 0 {
        proof {
            lemma_trunc_div_in_i64(chunk_sum as int, chunk_count as int);
            assert(chunk_last == seg[end - start]);
            assert(seg[end - start] == (raw@[end as int], times@[end as int]));
        }
        let mut avg_ping = raw[chunk_ref_idx].clone();
        let avg: i128 = chunk_sum / (chunk_count as i128);
        avg_ping.players_online = Some(avg as i64);
        avg_ping.pinged_at = raw[end].pinged_at.clone();
        out.push(avg_ping);
        proof {
            let refp = (raw@[chunk_ref_idx as int], times@[chunk_ref_idx as int]);
            let finalp = (
                averaged_point(refp.0, raw@[end as int].pinged_at, chunk_sum as int, chunk_count as int),
                times@[end as int],
            );
            assert(avg_ping == finalp.0);
            assert(points_of(seq![finalp]) =~= seq![finalp.0]);
            assert(out@ =~= old(out)@ + points_of(
                chunk_walk(seg, seg.first(), seg.first(), seg.first().1, 0, 0, w),
            ));
        }
    }
}

/// A short segment of at most two members is reproduced verbatim, every
/// member unmodified.
pub proof fn lemma_short_segment_verbatim(seg: Seq<TimedPing>, w: int, blip: int)
    requires
        seg.len() > 0,
        seg.last().1 - seg.first().1 <= blip,
        seg.len() <= 2,
    ensures
        compress_seg_spec(seg, w, blip) == seg,
{
}

/// A short segment of more than two members is collapsed to exactly its first
/// and last member; every interior member is dropped.
pub proof fn lemma_short_segment_edges(seg: Seq<TimedPing>, w: int, blip: int)
    requires
        seg.len() > 2,
        seg.last().1 - seg.first().1 <= blip,
    ensures
        compress_seg_spec(seg, w, blip) == seq![seg.first(), seg.last()],
{
}

/// A long offline segment is collapsed to exactly its first and last member.
pub proof fn lemma_long_offline_edges(seg: Seq<TimedPing>, w: int, blip: int)
    requires
        seg.len() > 0,
        seg.last().1 - seg.first().1 > blip,
        !seg.first().0.online,
    ensures
        compress_seg_spec(seg, w, blip) == seq![seg.first(), seg.last()],
{
}

/// One step of the transition count along a leading run: the run contributes
/// one transition where a member follows it, none where it ends the sequence.
proof fn lemma_transition_count_run(s: Seq<TimedPing>, k: int)
    requires
        1 <= k <= s.len(),
        forall|i: int| 0 <= i < k ==> (#[trigger] s[i]).0.online == s[0].0.online,
        k < s.len() ==> s[k].0.online != s[0].0.online,
    ensures
        transition_count(s) == (if k < s.len() {
            1int
        } else {
            0int
        }) + transition_count(s.skip(k)),
    decreases k,
{
    if k == 1 {
        if s.len() == 1 {
            assert(s.skip(1).len() == 0);
        } else {
            assert(s.skip(1) =~= s.drop_first());
        }
    } else {
        assert(s[1].0.online == s[0].0.online);
        let d = s.drop_first();
        assert forall|i: int| 0 <= i < k - 1 implies (#[trigger] d[i]).0.online == d[0].0.online by {
            assert(d[i] == s[i + 1]);
            assert(d[0] == s[1]);
        }
        if k - 1 < d.len() {
            assert(d[k - 1] == s[k]);
        }
        lemma_transition_count_run(d, k - 1);
        assert(d.skip(k - 1) =~= s.skip(k));
    }
}

/// The segmentation produces exactly one more segment than the input has
/// adjacent online/offline transitions.
pub proof fn lemma_segment_count_transitions(s: Seq<TimedPing>)
    requires
        s.len() > 0,
    ensures
        segment_count(s) == 1 + transition_count(s),
    decreases s.len(),
{
    lemma_first_run_properties(s);
    let k = first_run_len(s);
    lemma_transition_count_run(s, k);
    if k < s.len() {
        lemma_segment_count_transitions(s.skip(k));
        assert(segment_count(s) == 1 + segment_count(s.skip(k)));
        assert(transition_count(s) == 1 + transition_count(s.skip(k)));
    } else {
        assert(s.skip(k).len() == 0);
        assert(segment_count(s.skip(k)) == 0);
        assert(transition_count(s.skip(k)) == 0);
        assert(segment_count(s) == 1 + segment_count(s.skip(k)));
    }
}

/// The position of the first member whose elapsed time since the chunk start
/// reaches the chunk width, or the sequence's length where no member does.
pub open spec fn flush_index(m: Seq<TimedPing>, start_t: i64, w: int) -> int
    decreases m.len(),
{
    if m.len() == 0 {
        0
    } else if m[0].1 - start_t >= w {
        0
    } else {
        1 + flush_index(m.drop_first(), start_t, w)
    }
}

proof fn lemma_flush_index_bounds(m: Seq<TimedPing>, start_t: i64, w: int)
    ensures
        0 <= flush_index(m, start_t, w) <= m.len(),
    decreases m.len(),
{
    if m.len() > 0 && !(m[0].1 - start_t >= w) {
        lemma_flush_index_bounds(m.drop_first(), start_t, w);
    }
}

proof fn lemma_flush_index_is(m: Seq<TimedPing>, start_t: i64, w: int, j: int)
    requires
        0 <= j <= m.len(),
        forall|i: int| 0 <= i < j ==> (#[trigger] m[i]).1 - start_t < w,
        j < m.len() ==> m[j].1 - start_t >= w,
    ensures
        flush_index(m, start_t, w) == j,
    decreases m.len(),
{
    if j == 0 {
    } else {
        let d = m.drop_first();
        assert forall|i: int| 0 <= i < j - 1 implies (#[trigger] d[i]).1 - start_t < w by {
            assert(d[i] == m[i + 1]);
        }
        if j - 1 < d.len() {
            assert(d[j - 1] == m[j]);
        }
        lemma_flush_index_is(d, start_t, w, j - 1);
    }
}

/// The explicit chunk decomposition of a long online segment: each emitted
/// point is the chunk's reference member carrying the integer-truncated mean
/// of the occupancy of exactly the members accumulated since the previous
/// flush, stamped with the flushing member's timestamp; a trailing partial
/// chunk is flushed the same way, stamped with its own last member's
/// timestamp.
pub open spec fn chunk_points(m: Seq<TimedPing>, refp: TimedPing, start_t: i64, w: int) -> Seq<
    TimedPing,
>
    decreases m.len(),
    via chunk_points_decreases
{
    let k = flush_index(m, start_t, w);
    if m.len() == 0 {
        Seq::empty()
    } else if k == m.len() {
        seq![(averaged_point(refp.0, m.last().0.pinged_at, occ_sum(m), m.len() as int), m.last().1)]
    } else {
        seq![(averaged_point(refp.0, m[k].0.pinged_at, occ_sum(m.take(k + 1)), k + 1), m[k].1)]
            + chunk_points(m.skip(k + 1), m[k], m[k].1, w)
    }
}

#[via_fn]
proof fn chunk_points_decreases(m: Seq<TimedPing>, refp: TimedPing, start_t: i64, w: int) {
    lemma_flush_index_bounds(m, start_t, w);
}

/// The chunk walk with `p` already accumulated into the open chunk equals the
/// chunk decomposition of the accumulated members followed by the rest.
proof fn lemma_chunk_walk_points(
    m: Seq<TimedPing>,
    p: Seq<TimedPing>,
    refp: TimedPing,
    last: TimedPing,
    start_t: i64,
    w: int,
)
    requires
        forall|i: int| 0 <= i < p.len() ==> (#[trigger] p[i]).1 - start_t < w,
        p.len() > 0 ==> last == p.last(),
    ensures
        chunk_walk(m, refp, last, start_t, occ_sum(p), p.len() as int, w) == chunk_points(
            p + m,
            refp,
            start_t,
            w,
        ),
    decreases m.len(),
{
    let pm = p + m;
    if m.len() == 0 {
        assert(pm =~= p);
        lemma_flush_index_is(p, start_t, w, p.len() as int);
        if p.len() == 0 {
            assert(chunk_points(pm, refp, start_t, w) == Seq::<TimedPing>::empty());
        } else {
            assert(pm.last() == p.last());
        }
    } else {
        let x = m[0];
        let m2 = m.drop_first();
        if x.1 - start_t >= w {
            assert forall|i: int| 0 <= i < p.len() implies (#[trigger] pm[i]).1 - start_t < w by {
                assert(pm[i] == p[i]);
            }
            assert(pm[p.len() as int] == x);
            lemma_flush_index_is(pm, start_t, w, p.len() as int);
            lemma_occ_sum_push(p, x);
            assert(pm.take(p.len() + 1 as int) =~= p.push(x));
            assert(pm.skip(p.len() + 1 as int) =~= m2);
            lemma_chunk_walk_points(m2, Seq::empty(), x, x, x.1, w);
            assert(Seq::<TimedPing>::empty() + m2 =~= m2);
            assert(occ_sum(Seq::<TimedPing>::empty()) == 0);
            assert(chunk_walk(m, refp, last, start_t, occ_sum(p), p.len() as int, w) == seq![
                (
                    averaged_point(refp.0, x.0.pinged_at, occ_sum(p) + occ_of(x.0), p.len() + 1 as int),
                    x.1,
                ),
            ] + chunk_walk(m2, x, x, x.1, 0, 0, w));
            assert(chunk_points(pm, refp, start_t, w) == seq![
                (
                    averaged_point(
                        refp.0,
                        x.0.pinged_at,
                        occ_sum(pm.take(p.len() + 1 as int)),
                        p.len() + 1 as int,
                    ),
                    x.1,
                ),
            ] + chunk_points(m2, x, x.1, w));
        } else {
            let p2 = p.push(x);
            assert forall|i: int| 0 <= i < p2.len() implies (#[trigger] p2[i]).1 - start_t < w by {
                if i < p.len() {
                    assert(p2[i] == p[i]);
                } else {
                    assert(p2[i] == x);
                }
            }
            lemma_occ_sum_push(p, x);
            assert(p2.last() == x);
            lemma_chunk_walk_points(m2, p2, refp, x, start_t, w);
            assert(p2 + m2 =~= pm);
            assert(chunk_walk(m, refp, last, start_t, occ_sum(p), p.len() as int, w) == chunk_walk(
                m2,
                refp,
                x,
                start_t,
                occ_sum(p) + occ_of(x.0),
                p.len() as int + 1,
                w,
            ));
        }
    }
}

/// A long online segment's chunk-averaged walk equals the explicit chunk
/// decomposition: every averaged occupancy is the integer-truncated mean of
/// the raw occupancy values (absent treated as zero) over exactly the members
/// accumulated since the previous flush.
pub proof fn lemma_chunk_average_exact(m: Seq<TimedPing>, refp: TimedPing, start_t: i64, w: int)
    ensures
        chunk_walk(m, refp, refp, start_t, 0, 0, w) == chunk_points(m, refp, start_t, w),
{
    lemma_chunk_walk_points(m, Seq::empty(), refp, refp, start_t, w);
    assert(Seq::<TimedPing>::empty() + m =~= m);
    assert(occ_sum(Seq::<TimedPing>::empty()) == 0);
}

/// What compression does to a long online segment, stated over the explicit
/// chunk decomposition.
pub proof fn lemma_long_online_chunk_average(seg: Seq<TimedPing>, w: int, blip: int)
    requires
        seg.len() > 0,
        seg.last().1 - seg.first().1 > blip,
        seg.first().0.online,
    ensures
        compress_seg_spec(seg, w, blip) == chunk_points(seg, seg.first(), seg.first().1, w),
{
    lemma_chunk_average_exact(seg, seg.first(), seg.first().1, w);
}

/// Timestamps never decrease along the sequence.
pub open spec fn times_nondecreasing(s: Seq<TimedPing>) -> bool {
    forall|i: int, j: int| 0 <= i <= j < s.len() ==> (#[trigger] s[i]).1 <= (#[trigger] s[j]).1
}

/// The chunk walk of an ordered segment emits at most one point per consumed
/// member (plus one for an already-open chunk), keeps its points ordered, and
/// keeps every point's timestamp between the reference member's and the
/// segment's last.
proof fn lemma_chunk_walk_bounds(
    m: Seq<TimedPing>,
    refp: TimedPing,
    last: TimedPing,
    start_t: i64,
    sum: int,
    count: int,
    w: int,
)
    requires
        times_nondecreasing(m),
        forall|i: int| 0 <= i < m.len() ==> refp.1 <= (#[trigger] m[i]).1,
        refp.1 <= last.1,
        m.len() > 0 ==> last.1 <= m[0].1,
    ensures
        chunk_walk(m, refp, last, start_t, sum, count, w).len() <= m.len() + (if count > 0 {
            1int
        } else {
            0int
        }),
        times_nondecreasing(chunk_walk(m, refp, last, start_t, sum, count, w)),
        forall|i: int|
            0 <= i < chunk_walk(m, refp, last, start_t, sum, count, w).len() ==> refp.1 <= (
            #[trigger] chunk_walk(m, refp, last, start_t, sum, count, w)[i]).1 <= (if m.len() > 0 {
                m.last().1
            } else {
                last.1
            }),
    decreases m.len(),
{
    let out = chunk_walk(m, refp, last, start_t, sum, count, w);
    if m.len() == 0 {
    } else {
        let x = m[0];
        let m2 = m.drop_first();
        assert forall|i: int, j: int| 0 <= i <= j < m2.len() implies (#[trigger] m2[i]).1 <= (
        #[trigger] m2[j]).1 by {
            assert(m2[i] == m[i + 1]);
            assert(m2[j] == m[j + 1]);
        }
        assert forall|i: int| 0 <= i < m2.len() implies x.1 <= (#[trigger] m2[i]).1 by {
            assert(m2[i] == m[i + 1]);
        }
        if m2.len() > 0 {
            assert(m2.last() == m.last());
        }
        if x.1 - start_t >= w {
            lemma_chunk_walk_bounds(m2, x, x, x.1, 0, 0, w);
            let rest = chunk_walk(m2, x, x, x.1, 0, 0, w);
            assert(out == seq![
                (averaged_point(refp.0, x.0.pinged_at, sum + occ_of(x.0), count + 1), x.1),
            ] + rest);
            assert(out[0].1 == x.1);
            assert forall|i: int, j: int| 0 <= i <= j < out.len() implies (#[trigger] out[i]).1
                <= (#[trigger] out[j]).1 by {
                if i >= 1 {
                    assert(out[i] == rest[i - 1]);
                }
                if j >= 1 {
                    assert(out[j] == rest[j - 1]);
                }
            }
            assert forall|i: int| 0 <= i < out.len() implies refp.1 <= (#[trigger] out[i]).1 <= (
            if m.len() > 0 {
                m.last().1
            } else {
                last.1
            }) by {
                if i >= 1 {
                    assert(out[i] == rest[i - 1]);
                }
            }
        } else {
            lemma_chunk_walk_bounds(m2, refp, x, start_t, sum + occ_of(x.0), count + 1, w);
        }
    }
}

/// Compressing one ordered segment never lengthens it, keeps its points
/// ordered, and keeps every point's timestamp within the segment's own span.
proof fn lemma_compress_seg_bounds(seg: Seq<TimedPing>, w: int, blip: int)
    requires
        seg.len() > 0,
        times_nondecreasing(seg),
        blip >= 0,
    ensures
        compress_seg_spec(seg, w, blip).len() <= seg.len(),
        times_nondecreasing(compress_seg_spec(seg, w, blip)),
        forall|i: int|
            0 <= i < compress_seg_spec(seg, w, blip).len() ==> seg.first().1 <= (
            #[trigger] compress_seg_spec(seg, w, blip)[i]).1 <= seg.last().1,
    decreases seg.len(),
{
    let out = compress_seg_spec(seg, w, blip);
    let dur = seg.last().1 - seg.first().1;
    if dur <= blip {
        if seg.len() <= 2 {
        } else {
            assert(out == seq![seg.first(), seg.last()]);
        }
    } else if !seg.first().0.online {
        assert(seg.len() >= 2);
        assert(out == seq![seg.first(), seg.last()]);
    } else {
        assert forall|i: int| 0 <= i < seg.len() implies seg.first().1 <= (#[trigger] seg[i]).1 by {
            assert(seg.first() == seg[0]);
        }
        lemma_chunk_walk_bounds(seg, seg.first(), seg.first(), seg.first().1, 0, 0, w);
    }
}

/// For every ascending observation sequence, the downsampled series is itself
/// non-decreasing in timestamp, no longer than the input, and stays within
/// the input's time span.
pub proof fn lemma_downsample_ordered(s: Seq<TimedPing>, w: int, blip: int)
    requires
        times_nondecreasing(s),
        blip >= 0,
    ensures
        downsample_pairs(s, w, blip).len() <= s.len(),
        times_nondecreasing(downsample_pairs(s, w, blip)),
        s.len() > 0 ==> forall|i: int|
            0 <= i < downsample_pairs(s, w, blip).len() ==> s.first().1 <= (
            #[trigger] downsample_pairs(s, w, blip)[i]).1 <= s.last().1,
    decreases s.len(),
{
    if s.len() == 0 {
    } else {
        lemma_first_run_properties(s);
        let k = first_run_len(s);
        let run = s.take(k);
        let rest = s.skip(k);
        let out = downsample_pairs(s, w, blip);
        assert forall|i: int, j: int| 0 <= i <= j < run.len() implies (#[trigger] run[i]).1 <= (
        #[trigger] run[j]).1 by {
            assert(run[i] == s[i]);
            assert(run[j] == s[j]);
        }
        assert forall|i: int, j: int| 0 <= i <= j < rest.len() implies (#[trigger] rest[i]).1 <= (
        #[trigger] rest[j]).1 by {
            assert(rest[i] == s[k + i]);
            assert(rest[j] == s[k + j]);
        }
        assert(run.len() > 0);
        assert(run.first() == s.first());
        assert(run.last() == s[k - 1]);
        lemma_compress_seg_bounds(run, w, blip);
        lemma_downsample_ordered(rest, w, blip);
        let a = compress_seg_spec(run, w, blip);
        let b = downsample_pairs(rest, w, blip);
        assert(out == a + b);
        if rest.len() > 0 {
            assert(rest.first() == s[k as int]);
            assert(rest.last() == s.last());
        }
        assert forall|i: int, j: int| 0 <= i <= j < out.len() implies (#[trigger] out[i]).1 <= (
        #[trigger] out[j]).1 by {
            if i < a.len() {
                assert(out[i] == a[i]);
            } else {
                assert(out[i] == b[i - a.len()]);
            }
            if j < a.len() {
                assert(out[j] == a[j]);
            } else {
                assert(out[j] == b[j - a.len()]);
            }
            if i < a.len() && j >= a.len() {
                assert(a[i].1 <= run.last().1);
                assert(run.last().1 == s[k - 1].1);
                assert(s[k - 1].1 <= s[k as int].1);
                assert(rest.first().1 <= b[j - a.len()].1);
            }
        }
        assert forall|i: int| 0 <= i < out.len() implies s.first().1 <= (#[trigger] out[i]).1
            <= s.last().1 by {
            if i < a.len() {
                assert(out[i] == a[i]);
                assert(run.last().1 <= s.last().1);
            } else {
                assert(out[i] == b[i - a.len()]);
                assert(s.first().1 <= rest.first().1);
            }
        }
    }
}

/// The timestamp value of every observation of a sequence.
pub open spec fn times_of(ps: Seq<PingResult>) -> Seq<i64> {
    Seq::new(ps.len(), |i: int| rfc3339_secs(ps[i].pinged_at@))
}

/// The downsampled series of an observation sequence, for chunk width `w` and
/// blip threshold `blip`.
pub open spec fn spec_downsampled(ps: Seq<PingResult>, w: int, blip: int) -> Seq<PingResult> {
    points_of(downsample_pairs(paired(ps, times_of(ps)), w, blip))
}

/// The parsed timestamp of every observation, in order.
fn parse_times(raw: &Vec<PingResult>) -> (times: Vec<i64>)
    ensures
        times@ == times_of(raw@),
{
    let mut times: Vec<i64> = Vec::new();
    let mut i: usize = 0;
    while i < raw.len()
        invariant
            i <= raw@.len(),
            times@.len() == i,
            forall|j: int| 0 <= j < i ==> times@[j] == rfc3339_secs(raw@[j].pinged_at@),
        decreases raw@.len() - i,
    {
        let t = parse_time(raw[i].pinged_at.as_str());
        times.push(t);
        i = i + 1;
    }
    proof {
        assert(times@ =~= times_of(raw@));
    }
    times
}

/// Downsamples an ascending observation series: maximal constant-state
/// segments are compressed one by one and concatenated in order.
pub fn downsample_series(raw: &Vec<PingResult>, per_chunk_secs: i64, blip_secs: i64) -> (out: Vec<
    PingResult,
>)
    ensures
        out@ == spec_downsampled(raw@, per_chunk_secs as int, blip_secs as int),
{
    let ghost w = per_chunk_secs as int;
    let ghost blip = blip_secs as int;
    let mut optimized: Vec<PingResult> = Vec::new();
    if raw.len() == 0 {
        proof {
            assert(paired(raw@, times_of(raw@)).len() == 0);
            assert(points_of(downsample_pairs(paired(raw@, times_of(raw@)), w, blip)).len() == 0);
            assert(optimized@ =~= spec_downsampled(raw@, w, blip));
        }
        return optimized;
    }
    let times = parse_times(raw);
    let ghost pr = paired(raw@, times@);
    let mut seg_start: usize = 0;
    let mut seg_state = raw[0].online;
    let mut idx: usize = 1;
    proof {
        assert(pr.skip(0) =~= pr);
        assert(pr[0] == (raw@[0], times@[0]));
    }
    while idx < raw.len()
        invariant
            times@ == times_of(raw@),
            times@.len() == raw@.len(),
            pr == paired(raw@, times@),
            w == per_chunk_secs as int,
            blip == blip_secs as int,
            raw@.len() > 0,
            1 <= idx <= raw@.len(),
            seg_start < idx,
            seg_state == raw@[seg_start as int].online,
            forall|j: int| seg_start <= j < idx ==> (#[trigger] raw@[j]).online == seg_state,
            optimized@ + points_of(downsample_pairs(pr.skip(seg_start as int), w, blip))
                == points_of(downsample_pairs(pr, w, blip)),
        decreases raw@.len() - idx,
    {
        if raw[idx].online != seg_state {
            let ghost out_before = optimized@;
            compress_segment(
                raw,
                &times,
                seg_start,
                idx - 1,
                seg_state,
                per_chunk_secs,
                blip_secs,
                &mut optimized,
            );
            proof {
                let suf = pr.skip(seg_start as int);
                let k = idx - seg_start;
                assert forall|i: int| 0 <= i < k implies (#[trigger] suf[i]).0.online
                    == suf[0].0.online by {
                    assert(suf[i] == pr[seg_start + i]);
                    assert(pr[seg_start + i] == (raw@[seg_start + i], times@[seg_start + i]));
                    assert(suf[0] == pr[seg_start as int]);
                }
                assert(suf[k] == pr[idx as int]);
                assert(pr[idx as int] == (raw@[idx as int], times@[idx as int]));
                assert(suf[k].0.online != suf[0].0.online);
                lemma_first_run_len_of_run(suf, k);
                assert(suf.take(k) =~= pr.subrange(seg_start as int, idx as int));
                assert(suf.skip(k) =~= pr.skip(idx as int));
                assert(downsample_pairs(suf, w, blip) == compress_seg_spec(suf.take(k), w, blip)
                    + downsample_pairs(pr.skip(idx as int), w, blip));
                lemma_points_of_concat(
                    compress_seg_spec(suf.take(k), w, blip),
                    downsample_pairs(pr.skip(idx as int), w, blip),
                );
                assert(optimized@ == out_before + points_of(
                    compress_seg_spec(pr.subrange(seg_start as int, idx as int), w, blip),
                ));
                assert(optimized@ + points_of(downsample_pairs(pr.skip(idx as int), w, blip)) =~= (
                out_before + points_of(downsample_pairs(suf, w, blip))));
            }
            seg_start = idx;
            seg_state = raw[idx].online;
        }
        idx = idx + 1;
    }
    let ghost out_before = optimized@;
    let last = raw.len() - 1;
    compress_segment(
        raw,
        &times,
        seg_start,
        last,
        seg_state,
        per_chunk_secs,
        blip_secs,
        &mut optimized,
    );
    proof {
        let suf = pr.skip(seg_start as int);
        let k = raw@.len() - seg_start;
        assert forall|i: int| 0 <= i < k implies (#[trigger] suf[i]).0.online == suf[0].0.online by {
            assert(suf[i] == pr[seg_start + i]);
            assert(pr[seg_start + i] == (raw@[seg_start + i], times@[seg_start + i]));
            assert(suf[0] == pr[seg_start as int]);
        }
        lemma_first_run_len_of_run(suf, k);
        assert(suf.take(k) =~= pr.subrange(seg_start as int, raw@.len() as int));
        assert(suf.skip(k) =~= Seq::<TimedPing>::empty());
        assert(downsample_pairs(suf, w, blip) == compress_seg_spec(suf.take(k), w, blip)
            + downsample_pairs(Seq::<TimedPing>::empty(), w, blip));
        lemma_points_of_concat(
            compress_seg_spec(suf.take(k), w, blip),
            downsample_pairs(Seq::<TimedPing>::empty(), w, blip),
        );
        assert(optimized@ == out_before + points_of(
            compress_seg_spec(pr.subrange(seg_start as int, raw@.len() as int), w, blip),
        ));
        assert(optimized@ =~= out_before + points_of(downsample_pairs(suf, w, blip)));
        assert(optimized@ =~= points_of(downsample_pairs(pr, w, blip)));
    }
    optimized
}

/// Answers a history request from the rows the store returned: a day-range
/// request or an incremental request is passed through raw and unmodified; a
/// week or month range is downsampled with that range's chunk width. An empty
/// history yields an empty answer.
pub fn history_response(raw: Vec<PingResult>, range: QueryRange, since_id: Option<i64>) -> (out:
    Vec<PingResult>)
    ensures
        !spec_should_downsample(range, since_id) ==> out@ == raw@,
        spec_should_downsample(range, since_id) ==> out@ == spec_downsampled(
            raw@,
            spec_chunk_seconds(range) as int,
            BLIP_THRESHOLD_SECS as int,
        ),
        raw@.len() == 0 ==> out@.len() == 0,
{
    if !should_downsample(range, since_id) {
        return raw;
    }
    let per_chunk = chunk_seconds(range);
    downsample_series(&raw, per_chunk, BLIP_THRESHOLD_SECS)
}

} // verus!
