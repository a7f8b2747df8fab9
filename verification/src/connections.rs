//! The stargate-connection graph assembly.
//!
//! [`build_connection_lines`] walks connection rows that are pre-sorted by
//! origin id and deduplicates them while scanning: segments are accumulated
//! per origin, flushed into the output map whenever the origin changes, and
//! a destination that was already flushed as an origin is skipped unless the
//! current origin is the anchor (the lowest origin seen so far).  On sorted,
//! symmetric input this emits exactly one line per undirected pair.

use vstd::prelude::*;
use std::collections::HashMap;
use vstd::multiset::Multiset;

verus! {

broadcast use vstd::std_specs::hash::group_hash_axioms, vstd::seq_lib::lemma_seq_contains_after_push;

/// One row of the connection table: a directed origin-to-destination pair.
#[derive(Clone, Copy, PartialEq, Eq, Structural, Debug)]
pub struct ConnectionRow {
    /// Identifier of the origin solar system
    pub origin: u32,
    /// Identifier of the destination solar system
    pub dest: u32,
}

/// One row of the inter-region connection view: a directed pair together
/// with the region each endpoint lies in.
#[derive(Clone, Copy, PartialEq, Eq, Structural, Debug)]
pub struct RegionalRow {
    /// Identifier of the origin solar system
    pub origin: u32,
    /// Identifier of the destination solar system
    pub dest: u32,
    /// Region of the origin system
    pub origin_region: u32,
    /// Region of the destination system
    pub dest_region: u32,
}

/// The scanning state of the line builder.
pub ghost struct LineState {
    /// Lines flushed so far, keyed by their origin
    pub out: Map<u32, Seq<u32>>,
    /// Origins whose accumulator was already flushed
    pub flushed: Set<u32>,
    /// The lowest origin id seen so far
    pub anchor: Option<u32>,
    /// The origin whose segments are being accumulated
    pub current: Option<u32>,
    /// Destinations accumulated for the current origin
    pub acc: Seq<u32>,
}

/// The state before any row was scanned.
pub open spec fn init_state() -> LineState {
    LineState {
        out: Map::empty(),
        flushed: Set::empty(),
        anchor: None,
        current: None,
        acc: Seq::empty(),
    }
}

/// The smaller of two identifiers.
pub open spec fn min_u32(a: u32, b: u32) -> u32 {
    if a <= b {
        a
    } else {
        b
    }
}

/// One scanning step.  When the row's origin differs from the current one,
/// the accumulator is flushed under the previous origin first — unless this
/// is the very first origin encountered.  Then the anchor is lowered if
/// needed, and the destination is appended unless it was already flushed as
/// an origin while the current origin is not the anchor.
pub open spec fn step_state(s: LineState, row: ConnectionRow) -> LineState {
    let moved = if s.current == Some(row.origin) {
        s
    } else {
        match s.current {
            Some(prev) => LineState {
                out: s.out.insert(prev, s.acc),
                flushed: s.flushed.insert(prev),
                anchor: s.anchor,
                current: Some(row.origin),
                acc: Seq::empty(),
            },
            None => LineState {
                out: s.out,
                flushed: s.flushed,
                anchor: s.anchor,
                current: Some(row.origin),
                acc: s.acc,
            },
        }
    };
    let anchored = LineState {
        out: moved.out,
        flushed: moved.flushed,
        anchor: match moved.anchor {
            None => Some(row.origin),
            Some(a) => Some(min_u32(a, row.origin)),
        },
        current: moved.current,
        acc: moved.acc,
    };
    if anchored.flushed.contains(row.dest) && anchored.anchor != Some(row.origin) {
        anchored
    } else {
        LineState {
            out: anchored.out,
            flushed: anchored.flushed,
            anchor: anchored.anchor,
            current: anchored.current,
            acc: anchored.acc.push(row.dest),
        }
    }
}

/// The state after scanning all rows in order.
pub open spec fn run_state(rows: Seq<ConnectionRow>) -> LineState
    decreases rows.len(),
{
    if rows.len() == 0 {
        init_state()
    } else {
        step_state(run_state(rows.drop_last()), rows.last())
    }
}

/// The final unconditional flush of the last accumulator.
pub open spec fn finish_state(s: LineState) -> LineState {
    match s.current {
        Some(prev) => LineState {
            out: s.out.insert(prev, s.acc),
            flushed: s.flushed.insert(prev),
            anchor: s.anchor,
            current: s.current,
            acc: Seq::empty(),
        },
        None => s,
    }
}

/// The deduplicated line map the builder produces: for each origin, the
/// destinations of the segments kept for it, in row order.
pub open spec fn connection_lines(rows: Seq<ConnectionRow>) -> Map<u32, Seq<u32>> {
    finish_state(run_state(rows)).out
}

/// The executable map agrees with the mathematical one: same origins, and
/// for each origin the same destination list.
pub open spec fn lines_agree(m: Map<u32, Vec<u32>>, s: Map<u32, Seq<u32>>) -> bool {
    &&& forall|k: u32| #[trigger] m.contains_key(k) <==> s.contains_key(k)
    &&& forall|k: u32| #[trigger] s.contains_key(k) ==> m[k]@ == s[k]
}

/// True when the vector holds the identifier.
fn contains_id(v: &Vec<u32>, x: u32) -> (r: bool)
    ensures
        r == v@.contains(x),
{
    let n = v.len();
    let mut i: usize = 0;
    while i < n
        invariant
            n == v@.len(),
            0 <= i <= n,
            forall|k: int| 0 <= k < i ==> v@[k] != x,
        decreases n - i,
    {
        if v[i] == x {
            return true;
        }
        i += 1;
    }
    false
}

/// Builds the deduplicated connection-line map from rows that the caller
/// scanned in origin order.  The result is exactly the mathematical
/// [`connection_lines`] of the rows, whatever their order; only a scan
/// sorted by origin id ascending makes the dedup complete (see
/// [`lemma_one_line_per_pair`]).
pub fn build_connection_lines(rows: &Vec<ConnectionRow>) -> (out: HashMap<u32, Vec<u32>>)
    ensures
        lines_agree(out@, connection_lines(rows@)),
{
    let n = rows.len();
    let mut out: HashMap<u32, Vec<u32>> = HashMap::new();
    let mut flushed: Vec<u32> = Vec::new();
    let mut acc: Vec<u32> = Vec::new();
    let mut started = false;
    let mut current: u32 = 0;
    let mut anchor: u32 = 0;
    let mut i: usize = 0;
    while i < n
        invariant
            n == rows@.len(),
            0 <= i <= n,
            lines_agree(out@, run_state(rows@.subrange(0, i as int)).out),
            forall|x: u32|
                flushed@.contains(x) <==> run_state(rows@.subrange(0, i as int)).flushed.contains(
                    x,
                ),
            run_state(rows@.subrange(0, i as int)).current == (if started {
                Some(current)
            } else {
                None::<u32>
            }),
            run_state(rows@.subrange(0, i as int)).anchor == (if started {
                Some(anchor)
            } else {
                None::<u32>
            }),
            acc@ == run_state(rows@.subrange(0, i as int)).acc,
        decreases n - i,
    {
        let ghost pre = run_state(rows@.subrange(0, i as int));
        let ghost post = step_state(pre, rows@[i as int]);
        proof {
            assert(rows@.subrange(0, i + 1).drop_last() =~= rows@.subrange(0, i as int));
            assert(rows@.subrange(0, i + 1).last() == rows@[i as int]);
            assert(run_state(rows@.subrange(0, i + 1)) == post);
        }
        let row = rows[i];
        let ghost flushed_before = flushed@;
        if !started {
            started = true;
            current = row.origin;
            anchor = row.origin;
        } else if current != row.origin {
            out.insert(current, acc);
            flushed.push(current);
            acc = Vec::new();
            proof {
                assert(forall|x: u32|
                    flushed@.contains(x) <==> (flushed_before.contains(x) || x == current));
            }
            current = row.origin;
            if row.origin < anchor {
                anchor = row.origin;
            }
        } else {
            if row.origin < anchor {
                anchor = row.origin;
            }
        }
        let skip = contains_id(&flushed, row.dest) && anchor != row.origin;
        if !skip {
            acc.push(row.dest);
        }
        i += 1;
    }
    if started {
        out.insert(current, acc);
    }
    proof {
        assert(rows@.subrange(0, n as int) =~= rows@);
    }
    out
}

/// True when the rows are sorted by origin id ascending, the order the
/// builder's dedup relies on.
pub open spec fn sorted_by_origin(rows: Seq<ConnectionRow>) -> bool {
    forall|i: int, j: int| 0 <= i < j < rows.len() ==> rows[i].origin <= rows[j].origin
}

/// True when some row has this origin.
pub open spec fn origin_in(rows: Seq<ConnectionRow>, o: u32) -> bool {
    exists|i: int| 0 <= i < rows.len() && rows[i].origin == o
}

/// True when the directed pair appears among the rows.
pub open spec fn row_in(rows: Seq<ConnectionRow>, o: u32, d: u32) -> bool {
    exists|i: int| 0 <= i < rows.len() && rows[i].origin == o && rows[i].dest == d
}

/// True when every directed pair appears in the opposite direction too.
pub open spec fn symmetric_rows(rows: Seq<ConnectionRow>) -> bool {
    forall|i: int| 0 <= i < rows.len() ==> row_in(rows, rows[i].dest, rows[i].origin)
}

/// True when no directed pair appears twice.
pub open spec fn distinct_rows(rows: Seq<ConnectionRow>) -> bool {
    forall|i: int, j: int|
        0 <= i < j < rows.len() ==> !(rows[i].origin == rows[j].origin && rows[i].dest
            == rows[j].dest)
}

/// Whether a destination survives the dedup under origin `o` in a sorted
/// scan of `rows`: it does iff `o` is the anchor (the first, lowest origin)
/// or the destination never appears as an earlier — that is, lower — origin.
pub open spec fn keep_dest(rows: Seq<ConnectionRow>, o: u32, d: u32) -> bool {
    rows.len() > 0 && (o == rows[0].origin || !(origin_in(rows, d) && d < o))
}

/// The destinations the dedup keeps for origin `o` while scanning `scan`,
/// in row order.
pub open spec fn kept_dests(rows: Seq<ConnectionRow>, scan: Seq<ConnectionRow>, o: u32) -> Seq<u32>
    decreases scan.len(),
{
    if scan.len() == 0 {
        Seq::empty()
    } else {
        let rest = kept_dests(rows, scan.drop_last(), o);
        if scan.last().origin == o && keep_dest(rows, o, scan.last().dest) {
            rest.push(scan.last().dest)
        } else {
            rest
        }
    }
}

/// Two row tables that agree on the keep decision for `o` keep the same
/// destinations over any scan.
proof fn lemma_kept_dests_congruence(
    a1: Seq<ConnectionRow>,
    a2: Seq<ConnectionRow>,
    scan: Seq<ConnectionRow>,
    o: u32,
)
    requires
        forall|d: u32| keep_dest(a1, o, d) == keep_dest(a2, o, d),
    ensures
        kept_dests(a1, scan, o) == kept_dests(a2, scan, o),
    decreases scan.len(),
{
    if scan.len() > 0 {
        lemma_kept_dests_congruence(a1, a2, scan.drop_last(), o);
    }
}

/// A scan without rows of origin `o` keeps nothing for `o`.
proof fn lemma_kept_dests_absent(rows: Seq<ConnectionRow>, scan: Seq<ConnectionRow>, o: u32)
    requires
        forall|i: int| 0 <= i < scan.len() ==> scan[i].origin != o,
    ensures
        kept_dests(rows, scan, o) == Seq::<u32>::empty(),
    decreases scan.len(),
{
    if scan.len() > 0 {
        lemma_kept_dests_absent(rows, scan.drop_last(), o);
    }
}

/// What the scanning state looks like after any non-empty sorted scan: the
/// flushed origins are exactly those below the current one, each with its
/// kept destinations, and the accumulator holds the current origin's kept
/// destinations.
proof fn lemma_run_characterization(rows: Seq<ConnectionRow>)
    requires
        sorted_by_origin(rows),
        rows.len() > 0,
    ensures
        ({
            let s = run_state(rows);
            &&& s.current == Some(rows.last().origin)
            &&& s.anchor == Some(rows[0].origin)
            &&& forall|x: u32| #![trigger s.flushed.contains(x)]
                s.flushed.contains(x) <==> (origin_in(rows, x) && x < rows.last().origin)
            &&& forall|x: u32| #![trigger s.out.contains_key(x)]
                s.out.contains_key(x) <==> s.flushed.contains(x)
            &&& forall|o: u32| #![trigger s.out[o]]
                s.flushed.contains(o) ==> s.out[o] == kept_dests(rows, rows, o)
            &&& s.acc == kept_dests(rows, rows, rows.last().origin)
        }),
    decreases rows.len(),
{
    let s = run_state(rows);
    let r = rows.last();
    if rows.len() == 1 {
        assert(rows.drop_last() =~= Seq::<ConnectionRow>::empty());
        assert(s == step_state(init_state(), r));
        assert(!origin_in(Seq::<ConnectionRow>::empty(), r.dest));
        assert(kept_dests(rows, rows.drop_last(), r.origin) == Seq::<u32>::empty());
        assert(rows[0] == r);
        assert(keep_dest(rows, r.origin, r.dest));
        assert(s.acc =~= kept_dests(rows, rows, r.origin));
    } else {
        let prefix = rows.drop_last();
        lemma_run_characterization(prefix);
        let p = run_state(prefix);
        assert(s == step_state(p, r));
        let cur_pre = prefix.last().origin;
        let cur = r.origin;
        assert(cur_pre == rows[rows.len() - 2].origin);
        assert(cur_pre <= cur);
        assert(prefix[0] == rows[0]);
        // Every origin in the rows is at most the last row's origin.
        assert forall|x: u32| origin_in(rows, x) implies x <= cur by {
            let i = choose|i: int| 0 <= i < rows.len() && rows[i].origin == x;
            assert(rows[i].origin <= rows.last().origin);
        }
        assert(rows[0].origin <= cur_pre);
        // The keep decision never changes when the scan is extended by a
        // row whose origin is the largest so far.
        assert forall|o: u32, d: u32| o <= cur implies keep_dest(rows, o, d) == keep_dest(
            prefix,
            o,
            d,
        ) by {
            if origin_in(prefix, d) {
                let i = choose|i: int| 0 <= i < prefix.len() && prefix[i].origin == d;
                assert(rows[i].origin == d);
            }
            if origin_in(rows, d) && d < o {
                let i = choose|i: int| 0 <= i < rows.len() && rows[i].origin == d;
                if i < rows.len() - 1 {
                    assert(prefix[i].origin == d);
                } else {
                    assert(d == cur);
                }
            }
        }
        if cur == cur_pre {
            // Same group: nothing is flushed; the accumulator grows iff the
            // destination is kept.
            assert forall|x: u32| s.flushed.contains(x) implies (origin_in(rows, x) && x
                < cur) by {
                assert(s.flushed == p.flushed);
                assert(p.flushed.contains(x));
                assert(origin_in(prefix, x) && x < cur_pre);
                let i = choose|i: int| 0 <= i < prefix.len() && prefix[i].origin == x;
                assert(prefix[i] == rows[i]);
                assert(rows[i].origin == x);
            }
            assert forall|x: u32| origin_in(rows, x) && x < cur implies s.flushed.contains(
                x,
            ) by {
                let i = choose|i: int| 0 <= i < rows.len() && rows[i].origin == x;
                assert(i < rows.len() - 1);
                assert(prefix[i] == rows[i]);
                assert(origin_in(prefix, x));
                assert(p.flushed.contains(x));
                assert(s.flushed == p.flushed);
            }
            assert forall|o: u32| s.flushed.contains(o) implies s.out[o] == kept_dests(
                rows,
                rows,
                o,
            ) by {
                lemma_kept_dests_congruence(rows, prefix, prefix, o);
                assert(kept_dests(rows, rows, o) == kept_dests(rows, prefix, o));
            }
            // The accumulator matches the kept destinations of the group.
            lemma_kept_dests_congruence(rows, prefix, prefix, cur);
            assert(p.acc == kept_dests(rows, prefix, cur));
            let skip = p.flushed.contains(r.dest) && p.anchor != Some(r.origin);
            assert(skip == !keep_dest(rows, cur, r.dest));
            assert(s.acc == kept_dests(rows, rows, cur));
        } else {
            // New group: the previous accumulator is flushed under the
            // previous origin, and a fresh accumulator starts.
            assert(!p.flushed.contains(cur_pre)) by {
                if p.flushed.contains(cur_pre) {
                    assert(origin_in(prefix, cur_pre) && cur_pre < prefix.last().origin);
                }
            }
            assert forall|x: u32| s.flushed.contains(x) implies (origin_in(rows, x) && x
                < cur) by {
                assert(s.flushed == p.flushed.insert(cur_pre));
                if x == cur_pre {
                    assert(rows[rows.len() - 2].origin == x);
                } else {
                    assert(p.flushed.contains(x));
                    assert(origin_in(prefix, x) && x < cur_pre);
                    let i = choose|i: int| 0 <= i < prefix.len() && prefix[i].origin == x;
                    assert(prefix[i] == rows[i]);
                    assert(rows[i].origin == x);
                }
            }
            assert forall|x: u32| origin_in(rows, x) && x < cur implies s.flushed.contains(
                x,
            ) by {
                let i = choose|i: int| 0 <= i < rows.len() && rows[i].origin == x;
                assert(i < rows.len() - 1);
                assert(prefix[i] == rows[i]);
                assert(prefix[i].origin == x);
                assert(origin_in(prefix, x));
                if x != cur_pre {
                    assert(x <= cur_pre);
                    assert(x < cur_pre);
                    assert(p.flushed.contains(x));
                }
                assert(s.flushed == p.flushed.insert(cur_pre));
            }
            assert forall|o: u32| s.flushed.contains(o) implies s.out[o] == kept_dests(
                rows,
                rows,
                o,
            ) by {
                lemma_kept_dests_congruence(rows, prefix, prefix, o);
                if o == cur_pre {
                    assert(s.out[o] == p.acc);
                    assert(p.acc == kept_dests(rows, prefix, cur_pre));
                    assert(kept_dests(rows, rows, cur_pre) == kept_dests(rows, prefix, cur_pre));
                } else {
                    assert(p.flushed.contains(o));
                    assert(o < cur_pre);
                    assert(s.out[o] == p.out[o]);
                    assert(kept_dests(rows, rows, o) == kept_dests(rows, prefix, o));
                }
            }
            // The fresh accumulator holds at most the new row's destination.
            assert(forall|i: int| 0 <= i < prefix.len() ==> prefix[i].origin <= cur_pre);
            lemma_kept_dests_absent(rows, prefix, cur);
            let moved_flushed = p.flushed.insert(cur_pre);
            let skip = moved_flushed.contains(r.dest) && Some(rows[0].origin) != Some(r.origin);
            assert(skip == !keep_dest(rows, cur, r.dest)) by {
                if moved_flushed.contains(r.dest) {
                    assert(origin_in(rows, r.dest) && r.dest < cur);
                }
                if origin_in(rows, r.dest) && r.dest < cur {
                    let i = choose|i: int| 0 <= i < rows.len() && rows[i].origin == r.dest;
                    assert(i < rows.len() - 1);
                    assert(prefix[i].origin == r.dest);
                    if r.dest != cur_pre {
                        assert(r.dest <= cur_pre);
                    }
                    assert(moved_flushed.contains(r.dest));
                }
            }
            assert(s.acc == kept_dests(rows, rows, cur));
        }
    }
}

/// After the final flush the map holds exactly the origins of the rows,
/// each with its kept destinations.
proof fn lemma_lines_characterization(rows: Seq<ConnectionRow>)
    requires
        sorted_by_origin(rows),
        rows.len() > 0,
    ensures
        ({
            let m = connection_lines(rows);
            &&& forall|x: u32| #[trigger] m.contains_key(x) <==> origin_in(rows, x)
            &&& forall|o: u32| origin_in(rows, o) ==> m[o] == kept_dests(rows, rows, o)
        }),
{
    lemma_run_characterization(rows);
    let s = run_state(rows);
    let m = connection_lines(rows);
    let cur = rows.last().origin;
    assert forall|x: u32| origin_in(rows, x) implies x <= cur by {
        let i = choose|i: int| 0 <= i < rows.len() && rows[i].origin == x;
        assert(rows[i].origin <= rows.last().origin);
    }
    assert(origin_in(rows, cur));
    assert forall|x: u32| #[trigger] m.contains_key(x) implies origin_in(rows, x) by {
        if x != cur {
            assert(s.out.contains_key(x));
        }
    }
}

/// How often the directed pair appears in the scan.
pub open spec fn count_rows(scan: Seq<ConnectionRow>, o: u32, d: u32) -> nat
    decreases scan.len(),
{
    if scan.len() == 0 {
        0
    } else {
        count_rows(scan.drop_last(), o, d) + (if scan.last().origin == o && scan.last().dest == d {
            1nat
        } else {
            0nat
        })
    }
}

/// The kept destinations hold `d` as often as the scan holds the pair,
/// when the keep decision admits it, and never otherwise.
proof fn lemma_kept_count(
    rows: Seq<ConnectionRow>,
    scan: Seq<ConnectionRow>,
    o: u32,
    d: u32,
)
    ensures
        kept_dests(rows, scan, o).to_multiset().count(d) == (if keep_dest(rows, o, d) {
            count_rows(scan, o, d)
        } else {
            0nat
        }),
    decreases scan.len(),
{
    kept_dests(rows, scan, o).to_multiset_ensures();
    if scan.len() == 0 {
        assert(kept_dests(rows, scan, o).to_multiset() =~= Multiset::<u32>::empty());
    } else {
        lemma_kept_count(rows, scan.drop_last(), o, d);
        let rest = kept_dests(rows, scan.drop_last(), o);
        rest.to_multiset_ensures();
        if scan.last().origin == o && keep_dest(rows, o, scan.last().dest) {
            assert(kept_dests(rows, scan, o) == rest.push(scan.last().dest));
            assert(rest.push(scan.last().dest).to_multiset() =~= rest.to_multiset().insert(
                scan.last().dest,
            ));
        }
    }
}

/// In a table without duplicate rows a pair is counted once if present and
/// never otherwise.
proof fn lemma_count_rows_distinct(rows: Seq<ConnectionRow>, o: u32, d: u32)
    requires
        distinct_rows(rows),
    ensures
        count_rows(rows, o, d) == (if row_in(rows, o, d) {
            1nat
        } else {
            0nat
        }),
    decreases rows.len(),
{
    if rows.len() > 0 {
        let prefix = rows.drop_last();
        lemma_count_rows_distinct(prefix, o, d);
        let last = rows.last();
        if last.origin == o && last.dest == d {
            assert(!row_in(prefix, o, d)) by {
                if row_in(prefix, o, d) {
                    let i = choose|i: int|
                        0 <= i < prefix.len() && prefix[i].origin == o && prefix[i].dest == d;
                    assert(rows[i].origin == o && rows[i].dest == d);
                    assert(rows[rows.len() - 1].origin == o && rows[rows.len() - 1].dest == d);
                }
            }
            assert(row_in(rows, o, d)) by {
                assert(rows[rows.len() - 1].origin == o && rows[rows.len() - 1].dest == d);
            }
        } else {
            assert(row_in(rows, o, d) == row_in(prefix, o, d)) by {
                if row_in(rows, o, d) {
                    let i = choose|i: int|
                        0 <= i < rows.len() && rows[i].origin == o && rows[i].dest == d;
                    assert(prefix[i].origin == o && prefix[i].dest == d);
                }
                if row_in(prefix, o, d) {
                    let i = choose|i: int|
                        0 <= i < prefix.len() && prefix[i].origin == o && prefix[i].dest == d;
                    assert(rows[i].origin == o && rows[i].dest == d);
                }
            }
        }
    }
}

/// For any connected pair `(a, b)` with `a < b` in a sorted, symmetric
/// table without duplicate rows, the builder emits exactly one line for the
/// pair: once under the lower origin `a`, and never under `b`.
pub proof fn lemma_one_line_per_pair(rows: Seq<ConnectionRow>, a: u32, b: u32)
    requires
        sorted_by_origin(rows),
        symmetric_rows(rows),
        distinct_rows(rows),
        a < b,
        row_in(rows, a, b),
    ensures
        ({
            let m = connection_lines(rows);
            &&& m.contains_key(a)
            &&& m[a].to_multiset().count(b) == 1
            &&& m.contains_key(b)
            &&& m[b].to_multiset().count(a) == 0
        }),
{
    let m = connection_lines(rows);
    let i = choose|i: int| 0 <= i < rows.len() && rows[i].origin == a && rows[i].dest == b;
    assert(origin_in(rows, a));
    assert(row_in(rows, b, a)) by {
        assert(row_in(rows, rows[i].dest, rows[i].origin));
    }
    let j = choose|j: int| 0 <= j < rows.len() && rows[j].origin == b && rows[j].dest == a;
    assert(origin_in(rows, b));
    lemma_lines_characterization(rows);
    // The pair is kept under the lower origin:
    assert(keep_dest(rows, a, b));
    lemma_kept_count(rows, rows, a, b);
    lemma_count_rows_distinct(rows, a, b);
    // ... and dropped under the higher one, whose group can be neither the
    // anchor nor unaware that the lower origin was already flushed.
    assert(rows[0].origin <= rows[i].origin);
    assert(!keep_dest(rows, b, a));
    lemma_kept_count(rows, rows, b, a);
}

/// The same law at the level of the executable builder's output: a map
/// that agrees with [`connection_lines`] of a sorted, symmetric,
/// duplicate-free table emits exactly one line for each connected pair.
pub proof fn lemma_one_line_per_pair_built(
    m: Map<u32, Vec<u32>>,
    rows: Seq<ConnectionRow>,
    a: u32,
    b: u32,
)
    requires
        lines_agree(m, connection_lines(rows)),
        sorted_by_origin(rows),
        symmetric_rows(rows),
        distinct_rows(rows),
        a < b,
        row_in(rows, a, b),
    ensures
        m.contains_key(a),
        m[a]@.to_multiset().count(b) == 1,
        m.contains_key(b),
        m[b]@.to_multiset().count(a) == 0,
{
    lemma_one_line_per_pair(rows, a, b);
}

/// The rows whose two endpoints lie in different regions, in row order.
/// No dedup pass is needed: each row of this view already represents one
/// directed pair with the origin-below-destination filter applied upstream.
pub open spec fn cross_region_rows(rows: Seq<RegionalRow>) -> Seq<RegionalRow>
    decreases rows.len(),
{
    if rows.len() == 0 {
        Seq::empty()
    } else {
        let rest = cross_region_rows(rows.drop_last());
        if rows.last().origin_region != rows.last().dest_region {
            rest.push(rows.last())
        } else {
            rest
        }
    }
}

/// Keeps exactly the connections whose endpoints lie in different regions,
/// used to render only inter-region gates.
pub fn build_regional_connections(rows: &Vec<RegionalRow>) -> (out: Vec<RegionalRow>)
    ensures
        out@ == cross_region_rows(rows@),
{
    let n = rows.len();
    let mut out: Vec<RegionalRow> = Vec::new();
    let mut i: usize = 0;
    while i < n
        invariant
            n == rows@.len(),
            0 <= i <= n,
            out@ == cross_region_rows(rows@.subrange(0, i as int)),
        decreases n - i,
    {
        proof {
            assert(rows@.subrange(0, i + 1).drop_last() =~= rows@.subrange(0, i as int));
            assert(rows@.subrange(0, i + 1).last() == rows@[i as int]);
        }
        if rows[i].origin_region != rows[i].dest_region {
            out.push(rows[i]);
        }
        i += 1;
    }
    proof {
        assert(rows@.subrange(0, n as int) =~= rows@);
    }
    out
}

} // verus!
