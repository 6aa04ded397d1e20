//! What lookups by source position find.

use crate::groups::under;
use crate::model::{
    enum_entry, enum_of, map_ranges, mapped, member_nodes, name_over, name_ranges, names_in,
    node_ranges, nodes_over, shortest_entry, shortest_name, widened, Document, EnumDef, NameRef,
    Node, Range, SourceMapEntry,
};
use crate::model_laws::law_paths_list_their_nodes;
use crate::spans::{hits, in_order, overlapping, placed, Span};
use vstd::prelude::*;

verus! {

// --- Spans --------------------------------------------------------------------

proof fn lemma_pushed<T>(s: Seq<T>, y: T, x: T)
    ensures
        s.push(y).contains(x) <==> s.contains(x) || x == y,
{
    if s.contains(x) {
        let k = choose|k: int| 0 <= k < s.len() && s[k] == x;
        assert(s.push(y)[k] == x);
    }
    if x == y {
        assert(s.push(y)[s.len() as int] == x);
    }
    if s.push(y).contains(x) {
        let k = choose|k: int| 0 <= k < s.push(y).len() && s.push(y)[k] == x;
        if k < s.len() {
            assert(s[k] == x);
        }
    }
}

proof fn lemma_last<T>(s: Seq<T>, x: T)
    requires
        s.len() > 0,
    ensures
        s.contains(x) <==> s.drop_last().contains(x) || x == s.last(),
{
    lemma_pushed(s.drop_last(), s.last(), x);
    assert(s.drop_last().push(s.last()) =~= s);
}

proof fn lemma_placed(q: Seq<Span>, y: Span, x: Span)
    ensures
        placed(q, y).contains(x) <==> q.contains(x) || x == y,
    decreases q.len(),
{
    lemma_pushed(q, y, x);
    if q.len() > 0 {
        lemma_placed(q.drop_last(), y, x);
        lemma_pushed(placed(q.drop_last(), y), q.last(), x);
        lemma_last(q, x);
    }
}

proof fn lemma_in_order(s: Seq<Span>, x: Span)
    ensures
        in_order(s).contains(x) <==> s.contains(x),
    decreases s.len(),
{
    if s.len() > 0 {
        lemma_in_order(s.drop_last(), x);
        lemma_placed(in_order(s.drop_last()), s.last(), x);
        lemma_last(s, x);
    }
}

/// Whether a span meets `[start, stop)`.
pub open spec fn meets(x: Span, start: u64, stop: u64) -> bool {
    x.0 < stop && start < x.1
}

proof fn lemma_hits(s: Seq<Span>, start: u64, stop: u64, v: u64)
    ensures
        hits(s, start, stop).contains(v) <==> exists|x: Span| #[trigger]
            s.contains(x) && meets(x, start, stop) && x.2 == v,
    decreases s.len(),
{
    if s.len() > 0 {
        let init = s.drop_last();
        lemma_hits(init, start, stop, v);
        lemma_pushed(hits(init, start, stop), s.last().2, v);
        lemma_last(s, s.last());
        if hits(init, start, stop).contains(v) {
            let x = choose|x: Span| #[trigger]
                init.contains(x) && meets(x, start, stop) && x.2 == v;
            lemma_last(s, x);
            assert(s.contains(x));
        }
        if exists|x: Span| #[trigger] s.contains(x) && meets(x, start, stop) && x.2 == v {
            let x = choose|x: Span| #[trigger] s.contains(x) && meets(x, start, stop) && x.2 == v;
            lemma_last(s, x);
        }
    }
}

proof fn lemma_under(log: Seq<(u32, Span)>, file: u32, x: Span)
    ensures
        under(log, file).contains(x) <==> log.contains((file, x)),
    decreases log.len(),
{
    if log.len() > 0 {
        lemma_under(log.drop_last(), file, x);
        lemma_pushed(under(log.drop_last(), file), log.last().1, x);
        lemma_last(log, (file, x));
    }
}

/// A query of intervals finds the values of those in its file that it meets, and no others.
pub proof fn law_queries_find_what_they_meet(
    log: Seq<(u32, Span)>,
    file: u32,
    start: u64,
    stop: u64,
    v: u64,
)
    ensures
        overlapping(log, file, start, stop).contains(v) <==> exists|x: Span| #[trigger]
            log.contains((file, x)) && meets(x, start, stop) && x.2 == v,
{
    let s = under(log, file);
    lemma_hits(in_order(s), start, stop, v);
    assert forall|x: Span| in_order(s).contains(x) <==> #[trigger] log.contains((file, x)) by {
        lemma_in_order(s, x);
        lemma_under(log, file, x);
    }
    if overlapping(log, file, start, stop).contains(v) {
        let x = choose|x: Span| #[trigger]
            in_order(s).contains(x) && meets(x, start, stop) && x.2 == v;
        assert(log.contains((file, x)));
    }
    if exists|x: Span| #[trigger] log.contains((file, x)) && meets(x, start, stop) && x.2 == v {
        let x = choose|x: Span| #[trigger]
            log.contains((file, x)) && meets(x, start, stop) && x.2 == v;
        assert(in_order(s).contains(x));
    }
}

// --- Nodes --------------------------------------------------------------------

/// Whether `[start, end)` in a file meets `[lo, hi)`, where an empty one counts as one place.
pub open spec fn meets_at(start: int, end: int, lo: int, hi: int) -> bool {
    start < hi && (lo < end || lo <= start)
}

/// Whether a range is in a file and meets `[lo, hi)` there.
pub open spec fn range_meets(r: Option<Range>, file: u32, lo: int, hi: int) -> bool {
    r is Some && r->0.file == file && meets_at(
        r->0.start.offset as int,
        r->0.end.offset as int,
        lo,
        hi,
    )
}

proof fn lemma_widened(start: int, end: int, v: int, lo: int, hi: int)
    requires
        0 <= start <= 0xffff_ffff,
        0 <= end <= 0x1_ffff_ffff,
        0 <= v <= 0xffff_ffff_ffff_ffff,
        0 <= lo < hi <= 0xffff_ffff_ffff_ffff,
    ensures
        meets(widened(start, end, v), lo as u64, hi as u64) <==> meets_at(start, end, lo, hi),
        widened(start, end, v).2 == v,
{
}

spec fn node_spans(n: Node, file: u32, x: Span) -> bool {
    ||| n.def_range is Some && (file, x) == crate::model::range_entry(
        n.def_range->0,
        n.id as int,
    )
    ||| n.inst_range is Some && (file, x) == crate::model::range_entry(
        n.inst_range->0,
        n.id as int,
    )
}

proof fn lemma_node_ranges(nodes: Seq<Node>, n: nat, file: u32, x: Span)
    requires
        n <= nodes.len(),
    ensures
        node_ranges(nodes, n).contains((file, x)) <==> exists|i: int|
            0 <= i < n && node_spans(#[trigger] nodes[i], file, x),
    decreases n,
{
    if n > 0 {
        let node = nodes[n - 1];
        let r = node_ranges(nodes, (n - 1) as nat);
        lemma_node_ranges(nodes, (n - 1) as nat, file, x);
        let r1 = match node.def_range {
            Some(y) => r.push(crate::model::range_entry(y, node.id as int)),
            None => r,
        };
        if node.def_range is Some {
            lemma_pushed(
                r,
                crate::model::range_entry(node.def_range->0, node.id as int),
                (file, x),
            );
        }
        if node.inst_range is Some {
            lemma_pushed(
                r1,
                crate::model::range_entry(node.inst_range->0, node.id as int),
                (file, x),
            );
        }
        if exists|i: int| 0 <= i < n && node_spans(#[trigger] nodes[i], file, x) {
            let i = choose|i: int| 0 <= i < n && node_spans(#[trigger] nodes[i], file, x);
            if i < n - 1 {
                assert(node_spans(nodes[i], file, x));
            }
        }
        if node_spans(node, file, x) {
            assert(node_spans(nodes[n - 1], file, x));
        }
    }
}

/// A stretch of a file finds the nodes that are defined or instantiated in it, and no others.
pub proof fn law_sources_find_their_nodes(d: Document, file: u32, lo: int, hi: int, id: u32)
    requires
        0 <= lo < hi <= 0xffff_ffff_ffff_ffff,
    ensures
        nodes_over(d, file, lo, hi).contains(id) <==> exists|i: int|
            0 <= i < d.nodes@.len() && (#[trigger] d.nodes@[i]).id == id && (range_meets(
                d.nodes@[i].def_range,
                file,
                lo,
                hi,
            ) || range_meets(d.nodes@[i].inst_range, file, lo, hi)),
{
    let log = node_ranges(d.nodes@, d.nodes@.len());
    let found = overlapping(log, file, lo as u64, hi as u64);
    let all = nodes_over(d, file, lo, hi);
    law_queries_find_what_they_meet(log, file, lo as u64, hi as u64, id as u64);
    if all.contains(id) {
        let k = choose|k: int| 0 <= k < all.len() && all[k] == id;
        let v = found[k];
        assert(found.contains(v));
        law_queries_find_what_they_meet(log, file, lo as u64, hi as u64, v);
        let x = choose|x: Span| #[trigger]
            log.contains((file, x)) && meets(x, lo as u64, hi as u64) && x.2 == v;
        lemma_node_ranges(d.nodes@, d.nodes@.len(), file, x);
        let i = choose|i: int|
            0 <= i < d.nodes@.len() && node_spans(#[trigger] d.nodes@[i], file, x);
        lemma_node_met(d.nodes@[i], file, x, lo, hi);
        assert(d.nodes@[i].id == id);
    }
    if exists|i: int|
        0 <= i < d.nodes@.len() && (#[trigger] d.nodes@[i]).id == id && (range_meets(
            d.nodes@[i].def_range,
            file,
            lo,
            hi,
        ) || range_meets(d.nodes@[i].inst_range, file, lo, hi)) {
        let i = choose|i: int|
            0 <= i < d.nodes@.len() && (#[trigger] d.nodes@[i]).id == id && (range_meets(
                d.nodes@[i].def_range,
                file,
                lo,
                hi,
            ) || range_meets(d.nodes@[i].inst_range, file, lo, hi));
        let n = d.nodes@[i];
        let r = if range_meets(n.def_range, file, lo, hi) {
            n.def_range->0
        } else {
            n.inst_range->0
        };
        let x = crate::model::range_entry(r, n.id as int).1;
        lemma_widened(r.start.offset as int, r.end.offset as int, n.id as int, lo, hi);
        assert(node_spans(d.nodes@[i], file, x));
        lemma_node_ranges(d.nodes@, d.nodes@.len(), file, x);
        assert(log.contains((file, x)) && meets(x, lo as u64, hi as u64) && x.2 == id as u64);
        let k = choose|k: int| 0 <= k < found.len() && found[k] == id as u64;
        assert(all[k] == id);
    }
}

proof fn lemma_node_met(n: Node, file: u32, x: Span, lo: int, hi: int)
    requires
        node_spans(n, file, x),
        meets(x, lo as u64, hi as u64),
        0 <= lo < hi <= 0xffff_ffff_ffff_ffff,
    ensures
        x.2 == n.id as u64,
        range_meets(n.def_range, file, lo, hi) || range_meets(n.inst_range, file, lo, hi),
{
    if n.def_range is Some {
        let r = n.def_range->0;
        lemma_widened(r.start.offset as int, r.end.offset as int, n.id as int, lo, hi);
    }
    if n.inst_range is Some {
        let r = n.inst_range->0;
        lemma_widened(r.start.offset as int, r.end.offset as int, n.id as int, lo, hi);
    }
}

// --- Mapped source ------------------------------------------------------------

/// One side of a source-map entry.
pub open spec fn one_side(m: SourceMapEntry, generated: bool) -> Range {
    if generated {
        m.generated
    } else {
        m.source
    }
}

/// The length of a range, none where it ends before it starts.
pub open spec fn length(r: Range) -> int {
    if r.end.offset < r.start.offset {
        0
    } else {
        r.end.offset - r.start.offset
    }
}

/// Whether one side of a source-map entry covers an offset in a file.
pub open spec fn side_covers(m: SourceMapEntry, generated: bool, file: u32, offset: int) -> bool {
    range_meets(Some(one_side(m, generated)), file, offset, offset + 1)
}

proof fn lemma_map_ranges(m: Seq<SourceMapEntry>, generated: bool, n: nat, file: u32, x: Span)
    requires
        n <= m.len(),
    ensures
        map_ranges(m, generated, n).contains((file, x)) <==> exists|i: int|
            0 <= i < n && (file, x) == crate::model::range_entry(
                one_side(#[trigger] m[i], generated),
                i,
            ),
    decreases n,
{
    if n > 0 {
        lemma_map_ranges(m, generated, (n - 1) as nat, file, x);
        lemma_pushed(
            map_ranges(m, generated, (n - 1) as nat),
            crate::model::range_entry(one_side(m[n - 1], generated), n - 1),
            (file, x),
        );
        if exists|i: int|
            0 <= i < n && (file, x) == crate::model::range_entry(
                one_side(#[trigger] m[i], generated),
                i,
            ) {
            let i = choose|i: int|
                0 <= i < n && (file, x) == crate::model::range_entry(
                    one_side(#[trigger] m[i], generated),
                    i,
                );
            if i < n - 1 {
                assert(one_side(m[i], generated) == one_side(m[i], generated));
            }
        }
    }
}

proof fn lemma_map_found(
    m: Seq<SourceMapEntry>,
    generated: bool,
    file: u32,
    offset: int,
    i: u64,
)
    requires
        0 <= offset < 0xffff_ffff_ffff_ffff,
        m.len() <= 0xffff_ffff_ffff_ffff,
    ensures
        overlapping(
            map_ranges(m, generated, m.len()),
            file,
            offset as u64,
            (offset + 1) as u64,
        ).contains(i) <==> i < m.len() && side_covers(m[i as int], generated, file, offset),
{
    let log = map_ranges(m, generated, m.len());
    let (lo, hi) = (offset as u64, (offset + 1) as u64);
    law_queries_find_what_they_meet(log, file, lo, hi, i);
    if overlapping(log, file, lo, hi).contains(i) {
        let x = choose|x: Span| #[trigger]
            log.contains((file, x)) && meets(x, lo, hi) && x.2 == i;
        lemma_map_ranges(m, generated, m.len(), file, x);
        let j = choose|j: int|
            0 <= j < m.len() && (file, x) == crate::model::range_entry(
                one_side(#[trigger] m[j], generated),
                j,
            );
        let r = one_side(m[j], generated);
        lemma_widened(r.start.offset as int, r.end.offset as int, j, offset, offset + 1);
    }
    if i < m.len() && side_covers(m[i as int], generated, file, offset) {
        let r = one_side(m[i as int], generated);
        let x = crate::model::range_entry(r, i as int).1;
        lemma_widened(r.start.offset as int, r.end.offset as int, i as int, offset, offset + 1);
        lemma_map_ranges(m, generated, m.len(), file, x);
        assert((file, x) == crate::model::range_entry(one_side(m[i as int], generated), i as int));
        assert(log.contains((file, x)) && meets(x, lo, hi) && x.2 == i);
    }
}

proof fn lemma_shortest(m: Seq<SourceMapEntry>, at: Seq<u64>, generated: bool)
    requires
        forall|k: int| 0 <= k < at.len() ==> #[trigger] at[k] < m.len(),
    ensures
        shortest_entry(m, at, generated) is Some <==> at.len() > 0,
        shortest_entry(m, at, generated) is Some ==> ({
            let i = shortest_entry(m, at, generated)->0;
            &&& 0 <= i < m.len() && at.contains(i as u64)
            &&& forall|k: int|
                0 <= k < at.len() ==> length(one_side(m[i], generated)) <= length(
                    one_side(m[#[trigger] at[k] as int], generated),
                )
        }),
    decreases at.len(),
{
    if at.len() > 0 {
        let init = at.drop_last();
        lemma_shortest(m, init, generated);
        assert(at[at.len() - 1] < m.len());
        let i = shortest_entry(m, at, generated)->0;
        lemma_last(at, i as u64);
        assert forall|k: int| 0 <= k < at.len() implies length(one_side(m[i], generated))
            <= length(one_side(m[#[trigger] at[k] as int], generated)) by {
            if k < init.len() {
                assert(init[k] == at[k]);
            }
        }
    }
}

/// An offset is mapped by an entry that covers it, and by none that is longer than another
/// that does; it is not mapped only where no entry covers it.
pub proof fn law_offsets_map_by_the_narrowest_entry(
    d: Document,
    generated: bool,
    file: u32,
    offset: int,
)
    requires
        0 <= offset < 0xffff_ffff_ffff_ffff,
        d.source_map@.len() <= 0xffff_ffff_ffff_ffff,
    ensures
        match mapped(d, generated, file, offset) {
            Some(m) => {
                &&& d.source_map@.contains(m)
                &&& side_covers(m, generated, file, offset)
                &&& forall|i: int|
                    0 <= i < d.source_map@.len() && side_covers(
                        #[trigger] d.source_map@[i],
                        generated,
                        file,
                        offset,
                    ) ==> length(one_side(m, generated)) <= length(
                        one_side(d.source_map@[i], generated),
                    )
            },
            None => forall|i: int|
                0 <= i < d.source_map@.len() ==> !side_covers(
                    #[trigger] d.source_map@[i],
                    generated,
                    file,
                    offset,
                ),
        },
{
    let m = d.source_map@;
    let at = overlapping(
        map_ranges(m, generated, m.len()),
        file,
        offset as u64,
        (offset + 1) as u64,
    );
    assert forall|k: int| 0 <= k < at.len() implies #[trigger] at[k] < m.len() by {
        assert(at.contains(at[k]));
        lemma_map_found(m, generated, file, offset, at[k]);
    }
    lemma_shortest(m, at, generated);
    if mapped(d, generated, file, offset) is Some {
        let best = shortest_entry(m, at, generated)->0;
        lemma_map_found(m, generated, file, offset, best as u64);
        assert(m[best] == mapped(d, generated, file, offset)->0);
    }
    assert forall|i: int|
        0 <= i < m.len() && side_covers(#[trigger] m[i], generated, file, offset) implies mapped(
        d,
        generated,
        file,
        offset,
    ) is Some && length(one_side(mapped(d, generated, file, offset)->0, generated)) <= length(
        one_side(m[i], generated),
    ) by {
        lemma_map_found(m, generated, file, offset, i as u64);
        let k = choose|k: int| 0 <= k < at.len() && at[k] == i as u64;
        assert(at[k] as int == i);
    }
}

// --- Names --------------------------------------------------------------------

/// Whether an identifier occurrence covers an offset in a file.
pub open spec fn name_covers(n: NameRef, file: u32, offset: int) -> bool {
    n.file == file && meets_at(n.offset as int, n.offset + n.len, offset, offset + 1)
}

proof fn lemma_name_ranges(m: Seq<NameRef>, n: nat, file: u32, x: Span)
    requires
        n <= m.len(),
    ensures
        name_ranges(m, n).contains((file, x)) <==> exists|i: int|
            0 <= i < n && (#[trigger] m[i]).file == file && x == widened(
                m[i].offset as int,
                m[i].offset + m[i].len,
                i,
            ),
    decreases n,
{
    if n > 0 {
        let r = m[n - 1];
        lemma_name_ranges(m, (n - 1) as nat, file, x);
        lemma_pushed(
            name_ranges(m, (n - 1) as nat),
            (r.file, widened(r.offset as int, r.offset + r.len, n - 1)),
            (file, x),
        );
        if exists|i: int|
            0 <= i < n && (#[trigger] m[i]).file == file && x == widened(
                m[i].offset as int,
                m[i].offset + m[i].len,
                i,
            ) {
            let i = choose|i: int|
                0 <= i < n && (#[trigger] m[i]).file == file && x == widened(
                    m[i].offset as int,
                    m[i].offset + m[i].len,
                    i,
                );
            if i < n - 1 {
                assert(m[i].file == file);
            }
        }
    }
}

proof fn lemma_name_found(m: Seq<NameRef>, file: u32, offset: int, i: u64)
    requires
        0 <= offset < 0xffff_ffff_ffff_ffff,
        m.len() <= 0xffff_ffff_ffff_ffff,
    ensures
        overlapping(
            name_ranges(m, m.len()),
            file,
            offset as u64,
            (offset + 1) as u64,
        ).contains(i) <==> i < m.len() && name_covers(m[i as int], file, offset),
{
    let log = name_ranges(m, m.len());
    let (lo, hi) = (offset as u64, (offset + 1) as u64);
    law_queries_find_what_they_meet(log, file, lo, hi, i);
    if overlapping(log, file, lo, hi).contains(i) {
        let x = choose|x: Span| #[trigger]
            log.contains((file, x)) && meets(x, lo, hi) && x.2 == i;
        lemma_name_ranges(m, m.len(), file, x);
        let j = choose|j: int|
            0 <= j < m.len() && (#[trigger] m[j]).file == file && x == widened(
                m[j].offset as int,
                m[j].offset + m[j].len,
                j,
            );
        lemma_widened(m[j].offset as int, m[j].offset + m[j].len, j, offset, offset + 1);
    }
    if i < m.len() && name_covers(m[i as int], file, offset) {
        let n = m[i as int];
        let x = widened(n.offset as int, n.offset + n.len, i as int);
        lemma_widened(n.offset as int, n.offset + n.len, i as int, offset, offset + 1);
        lemma_name_ranges(m, m.len(), file, x);
        assert(m[i as int].file == file);
        assert(log.contains((file, x)) && meets(x, lo, hi) && x.2 == i);
    }
}

proof fn lemma_shortest_name(m: Seq<NameRef>, at: Seq<u64>)
    requires
        forall|k: int| 0 <= k < at.len() ==> #[trigger] at[k] < m.len(),
    ensures
        shortest_name(m, at) is Some <==> at.len() > 0,
        shortest_name(m, at) is Some ==> ({
            let i = shortest_name(m, at)->0;
            &&& 0 <= i < m.len() && at.contains(i as u64)
            &&& forall|k: int| 0 <= k < at.len() ==> m[i].len <= m[#[trigger] at[k] as int].len
        }),
    decreases at.len(),
{
    if at.len() > 0 {
        let init = at.drop_last();
        lemma_shortest_name(m, init);
        assert(at[at.len() - 1] < m.len());
        let i = shortest_name(m, at)->0;
        lemma_last(at, i as u64);
        assert forall|k: int| 0 <= k < at.len() implies m[i].len
            <= m[#[trigger] at[k] as int].len by {
            if k < init.len() {
                assert(init[k] == at[k]);
            }
        }
    }
}

/// The identifier at an offset is one that covers it, and none that is longer than another
/// that does; there is none only where no identifier covers the offset.
pub proof fn law_offsets_name_the_narrowest_identifier(d: Document, file: u32, offset: int)
    requires
        0 <= offset < 0xffff_ffff_ffff_ffff,
        d.name_refs@.len() <= 0xffff_ffff_ffff_ffff,
    ensures
        match name_over(d, file, offset) {
            Some(n) => {
                &&& d.name_refs@.contains(n)
                &&& name_covers(n, file, offset)
                &&& forall|i: int|
                    0 <= i < d.name_refs@.len() && name_covers(
                        #[trigger] d.name_refs@[i],
                        file,
                        offset,
                    ) ==> n.len <= d.name_refs@[i].len
            },
            None => forall|i: int|
                0 <= i < d.name_refs@.len() ==> !name_covers(
                    #[trigger] d.name_refs@[i],
                    file,
                    offset,
                ),
        },
{
    let m = d.name_refs@;
    let at = overlapping(
        name_ranges(m, m.len()),
        file,
        offset as u64,
        (offset + 1) as u64,
    );
    assert forall|k: int| 0 <= k < at.len() implies #[trigger] at[k] < m.len() by {
        assert(at.contains(at[k]));
        lemma_name_found(m, file, offset, at[k]);
    }
    lemma_shortest_name(m, at);
    if name_over(d, file, offset) is Some {
        let best = shortest_name(m, at)->0;
        lemma_name_found(m, file, offset, best as u64);
        assert(m[best] == name_over(d, file, offset)->0);
    }
    assert forall|i: int|
        0 <= i < m.len() && name_covers(#[trigger] m[i], file, offset) implies name_over(
        d,
        file,
        offset,
    ) is Some && name_over(d, file, offset)->0.len <= m[i].len by {
        lemma_name_found(m, file, offset, i as u64);
        let k = choose|k: int| 0 <= k < at.len() && at[k] == i as u64;
        assert(at[k] as int == i);
    }
}

proof fn lemma_names_in(m: Seq<NameRef>, file: u32, n: nat, x: NameRef)
    requires
        n <= m.len(),
    ensures
        names_in(m, file, n).contains(x) <==> m.take(n as int).contains(x) && x.file == file,
    decreases n,
{
    if n > 0 {
        lemma_names_in(m, file, (n - 1) as nat, x);
        lemma_pushed(names_in(m, file, (n - 1) as nat), m[n - 1], x);
        lemma_pushed(m.take(n - 1), m[n - 1], x);
        assert(m.take(n as int) =~= m.take(n - 1).push(m[n - 1]));
    }
}

/// A file lists the identifier occurrences in it, and no others.
pub proof fn law_files_list_their_identifiers(d: Document, file: u32, x: NameRef)
    ensures
        names_in(d.name_refs@, file, d.name_refs@.len()).contains(x) <==> d.name_refs@.contains(x)
            && x.file == file,
{
    lemma_names_in(d.name_refs@, file, d.name_refs@.len(), x);
    assert(d.name_refs@.take(d.name_refs@.len() as int) =~= d.name_refs@);
}

// --- Types and members --------------------------------------------------------

proof fn lemma_enum_entry(t: Seq<(String, EnumDef)>, name: Seq<char>, n: nat)
    requires
        n <= t.len(),
    ensures
        match enum_entry(t, name, n) {
            Some(i) => 0 <= i < n && t[i].0@ == name && forall|j: int|
                0 <= j < i ==> (#[trigger] t[j]).0@ != name,
            None => forall|j: int| 0 <= j < n ==> (#[trigger] t[j]).0@ != name,
        },
    decreases n,
{
    if n > 0 {
        lemma_enum_entry(t, name, (n - 1) as nat);
    }
}

/// A type's enumeration is that of the first entry under its name; it has none only where no
/// entry is under its name.
pub proof fn law_types_have_their_enumeration(d: Document, name: Seq<char>)
    ensures
        match enum_of(d, name) {
            Some(e) => exists|i: int|
                0 <= i < d.enums@.len() && (#[trigger] d.enums@[i]).0@ == name && d.enums@[i].1
                    == e && forall|j: int| 0 <= j < i ==> (#[trigger] d.enums@[j]).0@ != name,
            None => forall|j: int| 0 <= j < d.enums@.len() ==> (#[trigger] d.enums@[j]).0@ != name,
        },
{
    lemma_enum_entry(d.enums@, name, d.enums@.len());
    match enum_entry(d.enums@, name, d.enums@.len()) {
        Some(i) => {
            assert(d.enums@[i].0@ == name);
        },
        None => {},
    }
}

/// A member of an interface view is what stands under that name beside the view.
pub proof fn law_members_stand_beside_their_view(
    d: Document,
    view: u32,
    parent: u32,
    member: Seq<char>,
    x: u32,
)
    requires
        view < d.nodes@.len(),
        d.nodes@[view as int].parent == Some(parent),
        parent < d.nodes@.len(),
    ensures
        member_nodes(d, view, member).contains(x) <==> exists|i: int|
            0 <= i < d.nodes@.len() && (#[trigger] d.nodes@[i]).path@
                == d.nodes@[parent as int].path@ + seq!['.'] + member && d.nodes@[i].id == x,
{
    law_paths_list_their_nodes(
        d,
        d.nodes@[parent as int].path@ + seq!['.'] + member,
        x,
    );
}

} // verus!
