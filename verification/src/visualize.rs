//! The model behind an HTML visualization of a Vortex file's byte layout.

use crate::intern::interned;
use crate::intern::is_place_of;
use crate::intern::law_interned;
use crate::intern::law_interned_by_first;
use crate::intern::law_place_of;
use crate::intern::lemma_one_place;
use crate::intern::lemma_place_stays;
use crate::intern::place_of;
use crate::intern::texts;
use crate::intern::Interner;
use crate::order::comes_before;
use crate::order::is_order_of;
use crate::order::law_order_exists;
use crate::order::law_order_is_permutation;
use crate::order::law_order_is_unique;
use crate::order::lists;
use crate::order::stable_order;
use crate::postscript::postscript_at;
use crate::postscript::postscript_readable;
use crate::postscript::read_postscript;
use crate::postscript::PostscriptSegments;
use crate::postscript::SegmentSpec;
use crate::template::law_template_has_one_placeholder;
use crate::template::placeholder_at;
use crate::template::DATA_PLACEHOLDER;
use crate::template::TEMPLATE;
use crate::text::law_replace_once;
use crate::text::replace;
use vstd::hash_map::StringHashMap;
use vstd::prelude::*;
use vstd::string::StringExecFns;

verus! {

/// The size of the marker at the end of a file.
pub const EOF_SIZE: usize = 8;

/// The largest size of a postscript.
pub const MAX_POSTSCRIPT_SIZE: u16 = 65527;

/// The last bytes of a file, `VTXF`.
pub const MAGIC_BYTES: [u8; 4] = [86, 84, 88, 70];

/// Arguments of the visualize command.
#[derive(Debug)]
pub struct VisualizeArgs {
    /// Path to the Vortex file.
    pub file: String,
    /// Output HTML path. Defaults to `<file-stem>.layout.html` in the current directory.
    pub output: Option<String>,
    /// Open the generated HTML in the default browser.
    pub open: bool,
}

/// A segment of a column.
#[derive(Debug)]
pub struct SegmentDisplay {
    /// The name of the part of the layout that the segment belongs to.
    pub name: String,
    /// Where the segment stands in the file.
    pub spec: SegmentSpec,
    /// The first row that the segment covers.
    pub row_offset: u64,
    /// The number of rows that the segment covers.
    pub row_count: u64,
}

/// The segments of a file, by column.
pub struct SegmentTree {
    /// The segments of each column.
    pub segments: StringHashMap<Vec<SegmentDisplay>>,
    /// The columns in display order.
    pub segment_ordering: Vec<String>,
}

/// The full data model embedded into the HTML output.
#[derive(Debug)]
pub struct VizModel {
    /// Display name of the file (file name component).
    pub file: String,
    /// Total size of the file in bytes.
    pub file_size: u64,
    /// Total number of rows.
    pub row_count: u64,
    /// Human-readable schema (the root dtype).
    pub schema: String,
    /// Canonical row-range partition boundaries (`[start, end)` per split).
    pub splits: Vec<[u64; 2]>,
    /// Interned segment-name table; each column's `n` array indexes into this.
    pub seg_names: Vec<String>,
    /// Columns in display order.
    pub columns: Vec<VizColumn>,
    /// Metadata byte ranges (footer/postscript regions at the end of the file).
    pub meta: Vec<VizMeta>,
}

/// A labeled metadata byte range (e.g. the footer, postscript, or EOF marker).
#[derive(Debug)]
pub struct VizMeta {
    /// Human-readable label (e.g. `"dtype"`, `"layout"`, `"postscript"`, `"EOF"`).
    pub name: String,
    /// Byte offset in the file.
    pub byte_offset: u64,
    /// Length in bytes.
    pub byte_length: u32,
}

/// Per-column segment data in columnar (parallel-array) form: all arrays have the same length, and
/// element `i` describes segment `i`.
#[derive(Debug)]
pub struct VizColumn {
    /// Field name (may be dotted for nested fields).
    pub name: String,
    /// Index into `VizModel::seg_names` for each segment.
    pub n: Vec<u32>,
    /// First row covered by each segment.
    pub ro: Vec<u64>,
    /// Number of rows covered by each segment.
    pub rc: Vec<u64>,
    /// Byte offset in the file for each segment.
    pub o: Vec<u64>,
    /// Byte length of each segment.
    pub l: Vec<u32>,
}

/// The value of a [`VizMeta`].
pub struct MetaModel {
    pub name: Seq<char>,
    pub byte_offset: nat,
    pub byte_length: nat,
}

/// The value of a [`SegmentDisplay`].
pub struct SegmentModel {
    pub name: Seq<char>,
    pub spec: SegmentSpec,
    pub row_offset: u64,
    pub row_count: u64,
}

/// The value of a [`SegmentTree`].
pub struct TreeModel {
    pub segments: Map<Seq<char>, Seq<SegmentModel>>,
    pub ordering: Seq<Seq<char>>,
}

/// The value of a [`VizColumn`].
pub struct ColumnModel {
    pub name: Seq<char>,
    pub n: Seq<u32>,
    pub ro: Seq<u64>,
    pub rc: Seq<u64>,
    pub o: Seq<u64>,
    pub l: Seq<u32>,
}

/// The value of a [`VizModel`].
pub struct PageModel {
    pub file: Seq<char>,
    pub file_size: u64,
    pub row_count: u64,
    pub schema: Seq<char>,
    pub splits: Seq<Seq<u64>>,
    pub seg_names: Seq<Seq<char>>,
    pub columns: Seq<ColumnModel>,
    pub meta: Seq<MetaModel>,
}

impl View for VizMeta {
    type V = MetaModel;

    open spec fn view(&self) -> MetaModel {
        MetaModel {
            name: self.name@,
            byte_offset: self.byte_offset as nat,
            byte_length: self.byte_length as nat,
        }
    }
}

impl View for SegmentDisplay {
    type V = SegmentModel;

    open spec fn view(&self) -> SegmentModel {
        SegmentModel {
            name: self.name@,
            spec: self.spec,
            row_offset: self.row_offset,
            row_count: self.row_count,
        }
    }
}

impl View for SegmentTree {
    type V = TreeModel;

    open spec fn view(&self) -> TreeModel {
        TreeModel {
            segments: self.segments@.map_values(|v: Vec<SegmentDisplay>| segment_models(v@)),
            ordering: texts(self.segment_ordering@),
        }
    }
}

impl View for VizColumn {
    type V = ColumnModel;

    open spec fn view(&self) -> ColumnModel {
        ColumnModel {
            name: self.name@,
            n: self.n@,
            ro: self.ro@,
            rc: self.rc@,
            o: self.o@,
            l: self.l@,
        }
    }
}

impl View for VizModel {
    type V = PageModel;

    open spec fn view(&self) -> PageModel {
        PageModel {
            file: self.file@,
            file_size: self.file_size,
            row_count: self.row_count,
            schema: self.schema@,
            splits: split_models(self.splits@),
            seg_names: texts(self.seg_names@),
            columns: column_models(self.columns@),
            meta: meta_models(self.meta@),
        }
    }
}

/// The values of a row of segments.
pub open spec fn segment_models(segments: Seq<SegmentDisplay>) -> Seq<SegmentModel> {
    segments.map_values(|s: SegmentDisplay| s@)
}

/// The values of a row of columns.
pub open spec fn column_models(columns: Seq<VizColumn>) -> Seq<ColumnModel> {
    columns.map_values(|c: VizColumn| c@)
}

/// The values of a row of ranges.
pub open spec fn meta_models(meta: Seq<VizMeta>) -> Seq<MetaModel> {
    meta.map_values(|m: VizMeta| m@)
}

/// The values of a row of splits.
pub open spec fn split_models(splits: Seq<[u64; 2]>) -> Seq<Seq<u64>> {
    splits.map_values(|s: [u64; 2]| s@)
}

/// The offsets of a row of segments.
pub open spec fn offsets(segments: Seq<SegmentModel>) -> Seq<u64> {
    segments.map_values(|s: SegmentModel| s.spec.offset)
}

/// The segments by their offset, those with the same offset in the order in which they came.
pub open spec fn by_offset(segments: Seq<SegmentModel>) -> Seq<SegmentModel> {
    let order = choose|order: Seq<usize>| is_order_of(offsets(segments), order);
    order.map_values(|i: usize| segments[i as int])
}

/// The names of a row of segments.
pub open spec fn segment_names(segments: Seq<SegmentModel>) -> Seq<Seq<char>> {
    segments.map_values(|s: SegmentModel| s.name)
}

/// The columns that are shown of the first `n` of the display order: those that have segments, each
/// where it first comes.
pub open spec fn shown(tree: TreeModel, n: int) -> Seq<Seq<char>>
    decreases n,
{
    if n <= 0 {
        Seq::empty()
    } else {
        let before = shown(tree, n - 1);
        let name = tree.ordering[n - 1];
        if tree.segments.contains_key(name) && !tree.ordering.take(n - 1).contains(name) {
            before.push(name)
        } else {
            before
        }
    }
}

/// The names of the segments of the given columns, one column behind the other, each column's
/// segments by their offset.
pub open spec fn names_in_order(
    columns: Seq<Seq<char>>,
    segments: Map<Seq<char>, Seq<SegmentModel>>,
) -> Seq<Seq<char>>
    decreases columns.len(),
{
    if columns.len() == 0 {
        Seq::empty()
    } else {
        names_in_order(columns.drop_last(), segments) + segment_names(
            by_offset(segments[columns.last()]),
        )
    }
}

/// The columns that are shown of a tree.
pub open spec fn shown_columns(tree: TreeModel) -> Seq<Seq<char>> {
    shown(tree, tree.ordering.len() as int)
}

/// The table of the segment names of a tree.
pub open spec fn name_table(tree: TreeModel) -> Seq<Seq<char>> {
    interned(names_in_order(shown_columns(tree), tree.segments))
}

/// A column with these segments, their names as places in the table.
pub open spec fn column_of(
    name: Seq<char>,
    segments: Seq<SegmentModel>,
    table: Seq<Seq<char>>,
) -> ColumnModel {
    ColumnModel {
        name,
        n: segments.map_values(|s: SegmentModel| place_of(table, s.name)),
        ro: segments.map_values(|s: SegmentModel| s.row_offset),
        rc: segments.map_values(|s: SegmentModel| s.row_count),
        o: segments.map_values(|s: SegmentModel| s.spec.offset),
        l: segments.map_values(|s: SegmentModel| s.spec.length),
    }
}

/// The columns of a tree in display order, the segments of each by their offset.
pub open spec fn columns_of(tree: TreeModel) -> Seq<ColumnModel> {
    shown_columns(tree).map_values(
        |name: Seq<char>| column_of(name, by_offset(tree.segments[name]), name_table(tree)),
    )
}

impl VizColumn {
    /// Whether the arrays describe these segments, with their names as places in the table.
    spec fn describes(self, segments: Seq<SegmentModel>, table: Seq<Seq<char>>) -> bool {
        &&& self.n@.len() == segments.len()
        &&& self.ro@ == segments.map_values(|s: SegmentModel| s.row_offset)
        &&& self.rc@ == segments.map_values(|s: SegmentModel| s.row_count)
        &&& self.o@ == segments.map_values(|s: SegmentModel| s.spec.offset)
        &&& self.l@ == segments.map_values(|s: SegmentModel| s.spec.length)
        &&& forall|k: int|
            0 <= k < segments.len() ==> is_place_of(
                table,
                segments[k].name,
                #[trigger] self.n@[k],
            )
    }
}

impl SegmentTree {
    /// A tree without columns.
    pub fn new() -> (tree: Self)
        ensures
            tree@.segments == Map::<Seq<char>, Seq<SegmentModel>>::empty(),
            tree@.ordering == Seq::<Seq<char>>::empty(),
    {
        let tree = SegmentTree { segments: StringHashMap::new(), segment_ordering: Vec::new() };
        assert(tree@.segments =~= Map::<Seq<char>, Seq<SegmentModel>>::empty());
        assert(tree@.ordering =~= Seq::<Seq<char>>::empty());
        tree
    }

    /// Adds a column behind the others.
    pub fn add_column(&mut self, name: String, segments: Vec<SegmentDisplay>)
        ensures
            final(self)@.segments == old(self)@.segments.insert(
                name@,
                segment_models(segments@),
            ),
            final(self)@.ordering == old(self)@.ordering.push(name@),
            final(self).segments@ == old(self).segments@.insert(name@, segments),
            final(self).segment_ordering@ == old(self).segment_ordering@.push(name),
    {
        self.segments.insert(name.clone(), segments);
        self.segment_ordering.push(name);
        assert(self@.segments =~= old(self)@.segments.insert(name@, segment_models(segments@)));
        assert(self@.ordering =~= old(self)@.ordering.push(name@));
    }
}

/// One column in columnar form, its segments by their offset.
fn build_column(name: &String, segments: &Vec<SegmentDisplay>, interner: &mut Interner) -> (column:
    VizColumn)
    requires
        old(interner).wf(),
    ensures
        final(interner).wf(),
        old(interner).table().is_prefix_of(final(interner).table()),
        forall|names: Seq<Seq<char>>|
            old(interner).table() == #[trigger] interned(names) ==> final(interner).table()
                == interned(names + segment_names(by_offset(segment_models(segments@)))),
        column.name@ == name@,
        column.describes(by_offset(segment_models(segments@)), final(interner).table()),
{
    let mut keys: Vec<u64> = Vec::new();
    let mut i: usize = 0;
    while i < segments.len()
        invariant
            i <= segments@.len(),
            keys@.len() == i,
            forall|k: int| 0 <= k < i ==> keys@[k] == (#[trigger] segments@[k]).spec.offset,
        decreases segments@.len() - i,
    {
        keys.push(segments[i].spec.offset);
        i += 1;
    }
    let order: Vec<usize> = stable_order(&keys);
    let ghost models = segment_models(segments@);
    let ghost sorted = by_offset(models);
    proof {
        assert(keys@ =~= offsets(models));
        law_order_is_unique(
            keys@,
            order@,
            choose|o: Seq<usize>| is_order_of(offsets(models), o),
        );
    }
    let mut n: Vec<u32> = Vec::new();
    let mut ro: Vec<u64> = Vec::new();
    let mut rc: Vec<u64> = Vec::new();
    let mut o: Vec<u64> = Vec::new();
    let mut l: Vec<u32> = Vec::new();
    let ghost start = interner.table();
    let ghost names = segment_names(sorted);
    let mut k: usize = 0;
    assert forall|before: Seq<Seq<char>>| start == #[trigger] interned(
        before,
    ) implies interner.table() == interned(before + names.take(0)) by {
        assert(before + names.take(0) =~= before);
    }
    while k < order.len()
        invariant
            interner.wf(),
            is_order_of(keys@, order@),
            keys@.len() == segments@.len(),
            models == segment_models(segments@),
            sorted == order@.map_values(|i: usize| models[i as int]),
            names == segment_names(sorted),
            k <= order@.len(),
            start.is_prefix_of(interner.table()),
            forall|before: Seq<Seq<char>>|
                start == #[trigger] interned(before) ==> interner.table() == interned(
                    before + names.take(k as int),
                ),
            n@.len() == k,
            ro@ == sorted.take(k as int).map_values(|s: SegmentModel| s.row_offset),
            rc@ == sorted.take(k as int).map_values(|s: SegmentModel| s.row_count),
            o@ == sorted.take(k as int).map_values(|s: SegmentModel| s.spec.offset),
            l@ == sorted.take(k as int).map_values(|s: SegmentModel| s.spec.length),
            forall|a: int|
                0 <= a < k ==> is_place_of(
                    interner.table(),
                    sorted[a].name,
                    #[trigger] n@[a],
                ),
        decreases order@.len() - k,
    {
        let segment: &SegmentDisplay = &segments[order[k]];
        let ghost table = interner.table();
        let index: u32 = interner.intern(&segment.name);
        proof {
            assert(segment@ == sorted[k as int]);
            assert forall|a: int| 0 <= a < k implies is_place_of(
                interner.table(),
                sorted[a].name,
                #[trigger] n@[a],
            ) by {
                lemma_place_stays(table, interner.table(), sorted[a].name, n@[a]);
            }
            assert forall|before: Seq<Seq<char>>| start == #[trigger] interned(
                before,
            ) implies interner.table() == interned(before + names.take(k + 1)) by {
                let longer = before + names.take(k + 1);
                assert(longer.drop_last() =~= before + names.take(k as int));
                assert(longer.last() == names[k as int]);
            }
            assert(sorted.take(k + 1) =~= sorted.take(k as int).push(sorted[k as int]));
        }
        n.push(index);
        ro.push(segment.row_offset);
        rc.push(segment.row_count);
        o.push(segment.spec.offset);
        l.push(segment.spec.length);
        k += 1;
        assert(ro@ =~= sorted.take(k as int).map_values(|s: SegmentModel| s.row_offset));
        assert(rc@ =~= sorted.take(k as int).map_values(|s: SegmentModel| s.row_count));
        assert(o@ =~= sorted.take(k as int).map_values(|s: SegmentModel| s.spec.offset));
        assert(l@ =~= sorted.take(k as int).map_values(|s: SegmentModel| s.spec.length));
    }
    assert(sorted.take(k as int) =~= sorted);
    assert(names.take(k as int) =~= names);
    VizColumn { name: name.clone(), n, ro, rc, o, l }
}

/// The columns in display order and the table of segment names.
///
/// A column of the display order that has no segments is left out, and one that comes again is not
/// repeated.
pub fn build_columns(tree: SegmentTree) -> (built: (Vec<VizColumn>, Vec<String>))
    ensures
        column_models(built.0@) == columns_of(tree@),
        texts(built.1@) == name_table(tree@),
{
    let ghost model = tree@;
    let SegmentTree { segments, segment_ordering } = tree;
    let ghost all = model.segments;
    let ghost ordering = model.ordering;
    let mut segments = segments;
    let mut interner: Interner = Interner::new();
    let mut columns: Vec<VizColumn> = Vec::new();
    let mut i: usize = 0;
    while i < segment_ordering.len()
        invariant
            i <= segment_ordering@.len(),
            all == model.segments,
            ordering == model.ordering,
            ordering == texts(segment_ordering@),
            forall|k: Seq<char>| #[trigger]
                segments@.contains_key(k) <==> all.contains_key(k) && !ordering.take(
                    i as int,
                ).contains(k),
            forall|k: Seq<char>| #[trigger]
                segments@.contains_key(k) ==> segment_models(segments@[k]@) == all[k],
            interner.wf(),
            interner.table() == interned(names_in_order(shown(model, i as int), all)),
            columns@.len() == shown(model, i as int).len(),
            forall|c: int|
                0 <= c < columns@.len() ==> {
                    let name = shown(model, i as int)[c];
                    &&& (#[trigger] columns@[c]).name@ == name
                    &&& columns@[c].describes(by_offset(all[name]), interner.table())
                },
        decreases segment_ordering@.len() - i,
    {
        let col_name: &String = &segment_ordering[i];
        let ghost names = shown(model, i as int);
        let ghost table = interner.table();
        proof {
            assert(ordering[i as int] == col_name@);
            lemma_taken(ordering, i as int);
        }
        if let Some(found) = segments.get(col_name.as_str()) {
            let column: VizColumn = build_column(col_name, found, &mut interner);
            proof {
                let after = names.push(col_name@);
                assert(shown(model, i + 1) == after);
                assert(after.drop_last() =~= names);
                assert forall|c: int| 0 <= c < columns@.len() implies columns@[c].describes(
                    by_offset(all[#[trigger] names[c]]),
                    interner.table(),
                ) by {
                    columns@[c].lemma_describes_longer(
                        by_offset(all[names[c]]),
                        table,
                        interner.table(),
                    );
                }
            }
            columns.push(column);
        }
        segments.remove(col_name.as_str());
        i += 1;
    }
    proof {
        law_interned(names_in_order(shown_columns(model), all));
        assert forall|c: int| 0 <= c < columns@.len() implies #[trigger] columns@[c]@
            == columns_of(model)[c] by {
            let name = shown_columns(model)[c];
            columns@[c].lemma_described(by_offset(all[name]), name_table(model));
        }
        assert(column_models(columns@) =~= columns_of(model));
    }
    (columns, interner.into_names())
}

/// The names that were looked at, with one more.
proof fn lemma_taken(ordering: Seq<Seq<char>>, i: int)
    requires
        0 <= i < ordering.len(),
    ensures
        forall|k: Seq<char>| #[trigger]
            ordering.take(i + 1).contains(k) <==> ordering.take(i).contains(k) || k == ordering[i],
{
    assert forall|k: Seq<char>| #[trigger]
        ordering.take(i + 1).contains(k) <==> ordering.take(i).contains(k) || k == ordering[i] by {
        let longer = ordering.take(i + 1);
        let shorter = ordering.take(i);
        if shorter.contains(k) {
            let j = choose|j: int| 0 <= j < shorter.len() && shorter[j] == k;
            assert(longer[j] == k);
        }
        if k == ordering[i] {
            assert(longer[i] == k);
        }
        if longer.contains(k) && k != ordering[i] {
            let j = choose|j: int| 0 <= j < longer.len() && longer[j] == k;
            assert(shorter[j] == k);
        }
    }
}

impl VizColumn {
    /// Names added behind the others leave a column's places as they are.
    proof fn lemma_describes_longer(
        self,
        segments: Seq<SegmentModel>,
        table: Seq<Seq<char>>,
        longer: Seq<Seq<char>>,
    )
        requires
            self.describes(segments, table),
            table.is_prefix_of(longer),
        ensures
            self.describes(segments, longer),
    {
        assert forall|k: int| 0 <= k < segments.len() implies is_place_of(
            longer,
            segments[k].name,
            #[trigger] self.n@[k],
        ) by {
            lemma_place_stays(table, longer, segments[k].name, self.n@[k]);
        }
    }

    /// What describes segments by places in a table without repetitions is the column of them.
    proof fn lemma_described(self, segments: Seq<SegmentModel>, table: Seq<Seq<char>>)
        requires
            self.describes(segments, table),
            table.no_duplicates(),
        ensures
            self@ == column_of(self.name@, segments, table),
    {
        assert forall|k: int| 0 <= k < segments.len() implies #[trigger] self.n@[k] == place_of(
            table,
            segments[k].name,
        ) by {
            lemma_one_place(table, segments[k].name, self.n@[k]);
        }
        assert(self.n@ =~= segments.map_values(|s: SegmentModel| place_of(table, s.name)));
    }
}

/// The segments by their offset are the segments, none lost and none twice, with growing offsets;
/// those with the same offset stand in the order in which they came.
pub proof fn law_by_offset(segments: Seq<SegmentModel>) -> (order: Seq<usize>)
    requires
        segments.len() <= usize::MAX,
    ensures
        by_offset(segments).len() == segments.len(),
        order.len() == segments.len(),
        order.no_duplicates(),
        forall|i: int| 0 <= i < segments.len() ==> #[trigger] lists(order, i),
        forall|k: int| 0 <= k < segments.len() ==> #[trigger] order[k] < segments.len(),
        forall|k: int|
            0 <= k < segments.len() ==> #[trigger] by_offset(segments)[k]
                == segments[order[k] as int],
        forall|a: int, b: int|
            0 <= a < b < segments.len() ==> {
                let first = #[trigger] by_offset(segments)[a];
                let second = #[trigger] by_offset(segments)[b];
                &&& first.spec.offset <= second.spec.offset
                &&& first.spec.offset == second.spec.offset ==> order[a] < order[b]
            },
{
    let order = law_order_exists(offsets(segments));
    law_order_is_unique(
        offsets(segments),
        order,
        choose|o: Seq<usize>| is_order_of(offsets(segments), o),
    );
    law_order_is_permutation(offsets(segments), order);
    assert forall|a: int, b: int| 0 <= a < b < segments.len() implies {
        let first = #[trigger] by_offset(segments)[a];
        let second = #[trigger] by_offset(segments)[b];
        &&& first.spec.offset <= second.spec.offset
        &&& first.spec.offset == second.spec.offset ==> order[a] < order[b]
    } by {
        assert(comes_before(offsets(segments), order[a] as int, order[b] as int));
    }
    order
}

/// The end of a segment.
pub open spec fn segment_end(segment: SegmentSpec) -> int {
    segment.offset + segment.length
}

/// The furthest end of a segment, or 0 where there is none.
pub open spec fn furthest_end(segments: Seq<SegmentSpec>) -> int
    decreases segments.len(),
{
    if segments.len() == 0 {
        0
    } else {
        let before = furthest_end(segments.drop_last());
        if segment_end(segments.last()) > before {
            segment_end(segments.last())
        } else {
            before
        }
    }
}

/// No segment ends behind the furthest end, and one ends there, if there is one.
pub proof fn law_furthest_end(segments: Seq<SegmentSpec>)
    ensures
        forall|i: int|
            0 <= i < segments.len() ==> segment_end(#[trigger] segments[i]) <= furthest_end(
                segments,
            ),
        segments.len() > 0 ==> exists|i: int|
            0 <= i < segments.len() && segment_end(#[trigger] segments[i]) == furthest_end(
                segments,
            ),
        furthest_end(segments) >= 0,
    decreases segments.len(),
{
    if segments.len() > 0 {
        let front = segments.drop_last();
        let last = segments.len() - 1;
        law_furthest_end(front);
        assert forall|i: int| 0 <= i < segments.len() implies segment_end(#[trigger] segments[i])
            <= furthest_end(segments) by {
            if i < last {
                assert(segments[i] == front[i]);
            }
        }
        if segment_end(segments.last()) > furthest_end(front) || front.len() == 0 {
            assert(segment_end(segments[last]) == furthest_end(segments));
        } else {
            let i = choose|i: int|
                0 <= i < front.len() && segment_end(#[trigger] front[i]) == furthest_end(front);
            assert(segment_end(segments[i]) == furthest_end(segments));
        }
    }
}

/// The furthest end of a segment, or 0 where there is none.
pub fn max_segment_end(segments: &Vec<SegmentSpec>) -> (end: u64)
    requires
        forall|i: int| 0 <= i < segments@.len() ==> segment_end(#[trigger] segments@[i]) <= u64::MAX,
    ensures
        end == furthest_end(segments@),
        forall|i: int|
            0 <= i < segments@.len() ==> (#[trigger] segments@[i]).offset + segments@[i].length
                <= end,
        segments@.len() == 0 ==> end == 0,
        segments@.len() > 0 ==> exists|i: int|
            0 <= i < segments@.len() && (#[trigger] segments@[i]).offset + segments@[i].length
                == end,
{
    proof {
        law_segments_end_by_furthest(segments@);
    }
    let mut end: u64 = 0;
    let mut i: usize = 0;
    while i < segments.len()
        invariant
            forall|k: int|
                0 <= k < segments@.len() ==> segment_end(#[trigger] segments@[k]) <= u64::MAX,
            i <= segments@.len(),
            end == furthest_end(segments@.take(i as int)),
        decreases segments@.len() - i,
    {
        proof {
            assert(segment_end(segments@[i as int]) <= u64::MAX);
            assert(segments@.take(i + 1).drop_last() =~= segments@.take(i as int));
        }
        let this: u64 = segments[i].offset + segments[i].length as u64;
        if this > end {
            end = this;
        }
        i += 1;
    }
    assert(segments@.take(segments@.len() as int) =~= segments@);
    end
}

/// The size of a file: what the file system says, where it says something, but at least the
/// furthest end of a segment.
pub open spec fn size_of_file(metadata_len: Option<u64>, furthest: int) -> int {
    match metadata_len {
        Some(len) => if len > furthest {
            len as int
        } else {
            furthest
        },
        None => furthest,
    }
}

/// The size of a file: what the file system says, where it says something, but at least the
/// furthest end of a segment.
pub fn file_size(metadata_len: Option<u64>, max_segment_end: u64) -> (size: u64)
    ensures
        size == size_of_file(metadata_len, max_segment_end as int),
        size >= max_segment_end,
        metadata_len matches Some(len) ==> size >= len && (size == len || size == max_segment_end),
        metadata_len is None ==> size == max_segment_end,
{
    match metadata_len {
        Some(len) => if len > max_segment_end {
            len
        } else {
            max_segment_end
        },
        None => max_segment_end,
    }
}

/// The part at the end of a file that holds its postscript: where it begins, and its size.
pub fn tail_range(file_size: u64) -> (range: (u64, u64))
    ensures
        range.0 + range.1 == file_size,
        range.1 == if file_size < 65535 {
            file_size as int
        } else {
            65535
        },
{
    let limit: u64 = MAX_POSTSCRIPT_SIZE as u64 + EOF_SIZE as u64;
    let size: u64 = if file_size < limit {
        file_size
    } else {
        limit
    };
    (file_size - size, size)
}

/// The size of the postscript that the marker at the end of a file tells of.
pub open spec fn postscript_size(tail: Seq<u8>) -> int {
    tail[tail.len() - 6] + 256 * tail[tail.len() - 5]
}

/// Whether the end of a file has a marker, and a postscript of the size that it tells of.
pub open spec fn has_postscript(tail: Seq<u8>) -> bool {
    &&& tail.len() >= 8
    &&& tail.skip(tail.len() - 4) == MAGIC_BYTES@
    &&& postscript_size(tail) + 8 <= tail.len()
}

/// Where the postscript stands in the end of a file, or `None` where there is none.
pub fn locate_postscript(tail: &[u8]) -> (place: Option<(usize, usize)>)
    ensures
        place is Some <==> has_postscript(tail@),
        place matches Some((start, end)) ==> {
            &&& end == tail@.len() - 8
            &&& start == end - postscript_size(tail@)
            &&& end - start == tail@[tail@.len() - 6] + 256 * tail@[tail@.len() - 5]
            &&& end - start <= u16::MAX
        },
{
    if tail.len() < EOF_SIZE {
        return None;
    }
    let eof_loc: usize = tail.len() - EOF_SIZE;
    let ghost last = tail@.skip(tail@.len() - 4);
    let magic: bool = tail[eof_loc + 4] == MAGIC_BYTES[0] && tail[eof_loc + 5] == MAGIC_BYTES[1]
        && tail[eof_loc + 6] == MAGIC_BYTES[2] && tail[eof_loc + 7] == MAGIC_BYTES[3];
    proof {
        assert(last[0] == tail@[eof_loc + 4]);
        assert(last[1] == tail@[eof_loc + 5]);
        assert(last[2] == tail@[eof_loc + 6]);
        assert(last[3] == tail@[eof_loc + 7]);
        if magic {
            assert(last =~= MAGIC_BYTES@);
        }
    }
    if !magic {
        return None;
    }
    let ps_size: usize = tail[eof_loc + 2] as usize + 256 * (tail[eof_loc + 3] as usize);
    if ps_size + EOF_SIZE > tail.len() {
        return None;
    }
    Some((eof_loc - ps_size, eof_loc))
}

/// A labeled range, where the postscript tells of it.
pub open spec fn told(name: Seq<char>, segment: Option<SegmentSpec>) -> Seq<MetaModel> {
    match segment {
        None => Seq::empty(),
        Some(s) => seq![
            MetaModel { name, byte_offset: s.offset as nat, byte_length: s.length as nat },
        ],
    }
}

/// The labeled byte ranges of a file's metadata: those that the postscript tells of, the
/// postscript, and the marker at the end.
pub open spec fn meta_ranges(
    file_size: nat,
    ps_size: nat,
    postscript: PostscriptSegments,
) -> Seq<MetaModel> {
    told("dtype"@, postscript.dtype) + told("layout"@, postscript.layout) + told(
        "statistics"@,
        postscript.statistics,
    ) + told("footer"@, postscript.footer) + seq![
        MetaModel {
            name: "postscript"@,
            byte_offset: (file_size - 8 - ps_size) as nat,
            byte_length: ps_size,
        },
        MetaModel { name: "EOF"@, byte_offset: (file_size - 8) as nat, byte_length: 8 },
    ]
}

/// Appends a labeled range, where the postscript tells of it.
fn push_told(meta: &mut Vec<VizMeta>, name: &str, segment: Option<SegmentSpec>)
    ensures
        meta_models(final(meta)@) == meta_models(old(meta)@) + told(name@, segment),
{
    if let Some(s) = segment {
        meta.push(
            VizMeta {
                name: String::from_str(name),
                byte_offset: s.offset,
                byte_length: s.length,
            },
        );
    }
    assert(meta_models(meta@) =~= meta_models(old(meta)@) + told(name@, segment));
}

/// The labeled byte ranges of a file's metadata, from what its postscript, of `ps_size` bytes,
/// tells of.
pub fn meta_segments(file_size: u64, ps_size: u16, postscript: PostscriptSegments) -> (meta: Vec<
    VizMeta,
>)
    requires
        ps_size + 8 <= file_size,
    ensures
        meta_models(meta@) == meta_ranges(file_size as nat, ps_size as nat, postscript),
{
    let eof_byte_offset: u64 = file_size - EOF_SIZE as u64;
    let ps_byte_offset: u64 = eof_byte_offset - ps_size as u64;
    let mut meta: Vec<VizMeta> = Vec::new();
    push_told(&mut meta, "dtype", postscript.dtype);
    push_told(&mut meta, "layout", postscript.layout);
    push_told(&mut meta, "statistics", postscript.statistics);
    push_told(&mut meta, "footer", postscript.footer);
    meta.push(
        VizMeta {
            name: String::from_str("postscript"),
            byte_offset: ps_byte_offset,
            byte_length: ps_size as u32,
        },
    );
    meta.push(
        VizMeta {
            name: String::from_str("EOF"),
            byte_offset: eof_byte_offset,
            byte_length: EOF_SIZE as u32,
        },
    );
    assert(meta_models(meta@) =~= meta_ranges(file_size as nat, ps_size as nat, postscript));
    meta
}

/// The bytes of the postscript in the end of a file.
pub open spec fn postscript_bytes(tail: Seq<u8>) -> Seq<u8> {
    tail.subrange(tail.len() - 8 - postscript_size(tail), tail.len() - 8)
}

/// The labeled byte ranges of the metadata of a file whose end is `tail`, or none where it has no
/// postscript, or a broken one.
pub open spec fn meta_of(tail: Seq<u8>, file_size: nat) -> Seq<MetaModel> {
    let bytes = postscript_bytes(tail);
    if has_postscript(tail) && postscript_readable(bytes) {
        meta_ranges(file_size, postscript_size(tail) as nat, postscript_at(bytes))
    } else {
        Seq::empty()
    }
}

/// The labeled byte ranges of the metadata of a file whose end is `tail`, or none where it has no
/// postscript, or a broken one.
pub fn read_meta_segments(tail: &[u8], file_size: u64) -> (meta: Vec<VizMeta>)
    requires
        tail@.len() <= file_size,
    ensures
        meta_models(meta@) == meta_of(tail@, file_size as nat),
{
    match locate_postscript(tail) {
        None => no_meta(),
        Some((start, end)) => match read_postscript(&tail[start..end]) {
            None => no_meta(),
            Some(postscript) => meta_segments(file_size, (end - start) as u16, postscript),
        },
    }
}

/// No ranges.
fn no_meta() -> (meta: Vec<VizMeta>)
    ensures
        meta_models(meta@) == Seq::<MetaModel>::empty(),
{
    let meta: Vec<VizMeta> = Vec::new();
    assert(meta_models(meta@) =~= Seq::<MetaModel>::empty());
    meta
}

/// The postscript ends where the marker begins, and the marker ends where the file does.
pub proof fn law_meta_ends_file(file_size: nat, ps_size: nat, postscript: PostscriptSegments)
    requires
        ps_size + 8 <= file_size,
    ensures
        ({
            let ranges = meta_ranges(file_size, ps_size, postscript);
            let ps = ranges[ranges.len() - 2];
            let eof = ranges[ranges.len() - 1];
            &&& ranges.len() >= 2
            &&& ps.byte_offset + ps.byte_length == eof.byte_offset
            &&& eof.byte_offset + eof.byte_length == file_size
        }),
{
}

impl VisualizeArgs {
    /// The output path: the one asked for, or the stem of the file's name, or `vortex` where it has
    /// none, with the ending `.layout.html`.
    pub fn output_path(&self, file_stem: Option<String>) -> (path: String)
        ensures
            path@ == match self.output {
                Some(output) => output@,
                None => (match file_stem {
                    Some(stem) => stem@,
                    None => "vortex"@,
                }) + ".layout.html"@,
            },
    {
        match &self.output {
            Some(output) => output.clone(),
            None => {
                let stem: String = match file_stem {
                    Some(stem) => stem,
                    None => String::from_str("vortex"),
                };
                stem.concat(".layout.html")
            },
        }
    }

    /// The display name of the file: the last component of its path, or the path where it has
    /// none.
    pub fn display_name(&self, file_name: Option<String>) -> (name: String)
        ensures
            name@ == match file_name {
                Some(n) => n@,
                None => self.file@,
            },
    {
        match file_name {
            Some(name) => name,
            None => self.file.clone(),
        }
    }
}

/// What the footer of a file tells.
pub struct FileFooter {
    /// The segments of each column.
    pub segment_tree: SegmentTree,
    /// All segments.
    pub segment_map: Vec<SegmentSpec>,
    /// The number of rows.
    pub row_count: u64,
    /// The root dtype, for people.
    pub schema: String,
    /// The row ranges by which the file is split.
    pub splits: Vec<[u64; 2]>,
}

/// The value of a [`FileFooter`].
pub struct FooterModel {
    pub segment_tree: TreeModel,
    pub segment_map: Seq<SegmentSpec>,
    pub row_count: u64,
    pub schema: Seq<char>,
    pub splits: Seq<Seq<u64>>,
}

impl View for FileFooter {
    type V = FooterModel;

    open spec fn view(&self) -> FooterModel {
        FooterModel {
            segment_tree: self.segment_tree@,
            segment_map: self.segment_map@,
            row_count: self.row_count,
            schema: self.schema@,
            splits: split_models(self.splits@),
        }
    }
}

impl FooterModel {
    /// Whether the end of every segment fits 64 bits.
    pub open spec fn ends_fit(self) -> bool {
        forall|i: int|
            0 <= i < self.segment_map.len() ==> segment_end(#[trigger] self.segment_map[i])
                <= u64::MAX
    }

    /// The size of the file, where the file system says `metadata_len`.
    pub open spec fn size(self, metadata_len: Option<u64>) -> int {
        size_of_file(metadata_len, furthest_end(self.segment_map))
    }
}

/// The model of a file with this display name, footer and size, and these ranges of metadata.
pub open spec fn page_model(
    file: Seq<char>,
    footer: FooterModel,
    file_size: u64,
    meta: Seq<MetaModel>,
) -> PageModel {
    PageModel {
        file,
        file_size,
        row_count: footer.row_count,
        schema: footer.schema,
        splits: footer.splits,
        seg_names: name_table(footer.segment_tree),
        columns: columns_of(footer.segment_tree),
        meta,
    }
}

impl FileFooter {
    /// The size of the file, where the file system says `metadata_len`.
    pub fn file_size(&self, metadata_len: Option<u64>) -> (size: u64)
        requires
            self@.ends_fit(),
        ensures
            size == self@.size(metadata_len),
            metadata_len matches Some(len) ==> size >= len,
            forall|i: int|
                0 <= i < self.segment_map@.len() ==> (#[trigger] self.segment_map@[i]).offset
                    + self.segment_map@[i].length <= size,
            metadata_len == Some(size) || (size == 0 && self.segment_map@.len() == 0) || exists|
                i: int,
            |
                0 <= i < self.segment_map@.len() && (#[trigger] self.segment_map@[i]).offset
                    + self.segment_map@[i].length == size,
    {
        assert forall|i: int| 0 <= i < self.segment_map@.len() implies segment_end(
            #[trigger] self.segment_map@[i],
        ) <= u64::MAX by {
            assert(segment_end(self@.segment_map[i]) <= u64::MAX);
        }
        let end: u64 = max_segment_end(&self.segment_map);
        let size: u64 = file_size(metadata_len, end);
        proof {
            if size != end {
                assert(metadata_len == Some(size));
            }
        }
        size
    }
}

/// The model of a file, from its display name, its footer, its size, and the bytes at its end, if
/// they could be read. No other bytes of the file are asked for.
pub fn build_model(file: String, footer: FileFooter, file_size: u64, tail: Option<&[u8]>) -> (model:
    VizModel)
    requires
        tail matches Some(bytes) ==> bytes@.len() <= file_size,
    ensures
        model@ == page_model(
            file@,
            footer@,
            file_size,
            match tail {
                Some(bytes) => meta_of(bytes@, file_size as nat),
                None => Seq::empty(),
            },
        ),
        model.file@ == file@,
        model.file_size == file_size,
        model.row_count == footer.row_count,
        model.schema@ == footer.schema@,
        model.splits@.len() == footer.splits@.len(),
        forall|k: int|
            0 <= k < footer.splits@.len() ==> {
                &&& (#[trigger] model.splits@[k])@[0] == footer.splits@[k]@[0]
                &&& model.splits@[k]@[1] == footer.splits@[k]@[1]
            },
        column_models(model.columns@) == columns_of(footer.segment_tree@),
        texts(model.seg_names@) == name_table(footer.segment_tree@),
        tail matches Some(bytes) ==> meta_models(model.meta@) == meta_of(bytes@, file_size as nat),
        tail is None ==> model.meta@.len() == 0,
{
    let meta: Vec<VizMeta> = match tail {
        Some(bytes) => read_meta_segments(bytes, file_size),
        None => no_meta(),
    };
    assert(tail is None ==> meta_models(meta@).len() == 0);
    let FileFooter { segment_tree, segment_map: _, row_count, schema, splits } = footer;
    let (columns, seg_names) = build_columns(segment_tree);
    VizModel { file, file_size, row_count, schema, splits, seg_names, columns, meta }
}

/// The page with a serialized model in the place of the placeholder.
pub open spec fn page_of(json: Seq<char>) -> Seq<char> {
    TEMPLATE@.take(placeholder_at()) + json + TEMPLATE@.skip(
        placeholder_at() + DATA_PLACEHOLDER@.len(),
    )
}

/// The page with a serialized model in the place of the placeholder: the head of the template, the
/// model, and the tail of the template.
pub fn render_html(json: &str) -> (html: String)
    ensures
        html@ == page_of(json@),
{
    proof {
        reveal_strlit("/*__VORTEX_DATA__*/");
        law_template_has_one_placeholder();
        law_replace_once(TEMPLATE@, DATA_PLACEHOLDER@, json@, placeholder_at());
    }
    replace(TEMPLATE, DATA_PLACEHOLDER, json)
}

/// The bytes at the end of a file that are read.
pub open spec fn tail_of(file: Seq<u8>) -> Seq<u8> {
    if file.len() < 65535 {
        file
    } else {
        file.skip(file.len() - 65535)
    }
}

/// The page of a file, from its display name, its footer and its bytes, where `to_json` is how a
/// model is serialized.
pub open spec fn page_of_file(
    name: Seq<char>,
    footer: FooterModel,
    file: Seq<u8>,
    to_json: spec_fn(PageModel) -> Seq<char>,
) -> Seq<char> {
    let size = footer.size(Some(file.len() as u64));
    page_of(
        to_json(page_model(name, footer, size as u64, meta_of(tail_of(file), size as nat))),
    )
}

/// Two runs on the same footer, display name, size and metadata ranges give the same page, however a
/// model is serialized.
pub proof fn law_same_footer_same_page(
    a: VizModel,
    b: VizModel,
    file: Seq<char>,
    footer: FooterModel,
    file_size: u64,
    meta: Seq<MetaModel>,
    to_json: spec_fn(PageModel) -> Seq<char>,
)
    requires
        a@ == page_model(file, footer, file_size, meta),
        b@ == page_model(file, footer, file_size, meta),
    ensures
        a@ == b@,
        page_of(to_json(a@)) == page_of(to_json(b@)),
{
}

/// No column data influences the page: two files of the same name and size with the same footer,
/// which have the same bytes from the furthest end of a segment on, give the same page, whatever
/// their segments hold and however a model is serialized.
///
/// The postscript and the marker at the end stand behind all segments.
pub proof fn law_page_reads_no_column_data(
    name: Seq<char>,
    footer: FooterModel,
    a: Seq<u8>,
    b: Seq<u8>,
    to_json: spec_fn(PageModel) -> Seq<char>,
)
    requires
        a.len() == b.len() <= u64::MAX,
        a.len() >= 8 ==> furthest_end(footer.segment_map) + 8 <= a.len(),
        has_postscript(tail_of(a)) ==> furthest_end(footer.segment_map) + 8 + postscript_size(
            tail_of(a),
        ) <= a.len(),
        forall|p: int|
            furthest_end(footer.segment_map) <= p < a.len() ==> #[trigger] a[p] == b[p],
    ensures
        page_of_file(name, footer, a, to_json) == page_of_file(name, footer, b, to_json),
{
    let tail_a = tail_of(a);
    let tail_b = tail_of(b);
    let n = tail_a.len() as int;
    let shift = a.len() - n;
    law_furthest_end(footer.segment_map);
    if n >= 8 {
        assert forall|k: int| n - 8 <= k < n implies tail_a[k] == tail_b[k] by {
            assert(tail_a[k] == a[shift + k]);
            assert(tail_b[k] == b[shift + k]);
        }
        assert(tail_a.skip(n - 4) =~= tail_b.skip(n - 4));
    }
    assert(has_postscript(tail_a) == has_postscript(tail_b));
    if has_postscript(tail_a) {
        let start = n - 8 - postscript_size(tail_a);
        assert forall|k: int| start <= k < n implies tail_a[k] == tail_b[k] by {
            assert(tail_a[k] == a[shift + k]);
            assert(tail_b[k] == b[shift + k]);
        }
        assert(postscript_bytes(tail_a) =~= postscript_bytes(tail_b));
    }
}

/// No segment ends behind the furthest end, and one ends there, if there is one: the end of a
/// segment is its offset and its length.
pub proof fn law_segments_end_by_furthest(segments: Seq<SegmentSpec>)
    ensures
        forall|i: int|
            0 <= i < segments.len() ==> (#[trigger] segments[i]).offset + segments[i].length
                <= furthest_end(segments),
        segments.len() == 0 ==> furthest_end(segments) == 0,
        segments.len() > 0 ==> exists|i: int|
            0 <= i < segments.len() && (#[trigger] segments[i]).offset + segments[i].length
                == furthest_end(segments),
{
    law_furthest_end(segments);
    assert forall|i: int| 0 <= i < segments.len() implies (#[trigger] segments[i]).offset
        + segments[i].length <= furthest_end(segments) by {
        assert(segment_end(segments[i]) <= furthest_end(segments));
    }
    if segments.len() > 0 {
        let i = choose|i: int|
            0 <= i < segments.len() && segment_end(#[trigger] segments[i]) == furthest_end(
                segments,
            );
        assert(segments[i].offset + segments[i].length == furthest_end(segments));
    }
}

/// A model tells what the footer tells, one for one: the display name, the size, the number of rows,
/// the schema, and every split in its place with its start and its end.
pub proof fn law_model_tells_footer(
    model: VizModel,
    file: Seq<char>,
    footer: FileFooter,
    file_size: u64,
    meta: Seq<MetaModel>,
    k: int,
)
    requires
        model@ == page_model(file, footer@, file_size, meta),
        0 <= k < footer.splits@.len(),
    ensures
        model.file@ == file,
        model.file_size == file_size,
        model.row_count == footer.row_count,
        model.schema@ == footer.schema@,
        model.splits@.len() == footer.splits@.len(),
        model.splits@[k]@[0] == footer.splits@[k]@[0],
        model.splits@[k]@[1] == footer.splits@[k]@[1],
{
    assert(split_models(model.splits@)[k] == split_models(footer.splits@)[k]);
    assert(split_models(model.splits@).len() == split_models(footer.splits@).len());
    assert(model.splits@[k]@ == footer.splits@[k]@);
}

/// The marker at the end of a file is its last eight bytes: the last four spell `VTXF`, and the third
/// and the fourth are the size of the postscript before it, the low byte first.
pub proof fn law_marker(tail: Seq<u8>)
    ensures
        has_postscript(tail) <==> {
            &&& tail.len() >= 8
            &&& tail[tail.len() - 4] == 0x56
            &&& tail[tail.len() - 3] == 0x54
            &&& tail[tail.len() - 2] == 0x58
            &&& tail[tail.len() - 1] == 0x46
            &&& tail[tail.len() - 6] + 256 * tail[tail.len() - 5] + 8 <= tail.len()
        },
        has_postscript(tail) ==> {
            let size = tail[tail.len() - 6] + 256 * tail[tail.len() - 5];
            &&& postscript_size(tail) == size
            &&& postscript_bytes(tail).len() == size
            &&& tail == tail.take(tail.len() - 8 - size) + postscript_bytes(tail) + tail.skip(
                tail.len() - 8,
            )
        },
{
    if tail.len() >= 8 {
        let last = tail.skip(tail.len() - 4);
        assert(last[0] == tail[tail.len() - 4]);
        assert(last[1] == tail[tail.len() - 3]);
        assert(last[2] == tail[tail.len() - 2]);
        assert(last[3] == tail[tail.len() - 1]);
        if last[0] == 0x56 && last[1] == 0x54 && last[2] == 0x58 && last[3] == 0x46 {
            assert(last =~= MAGIC_BYTES@);
        }
    }
    if has_postscript(tail) {
        let size = postscript_size(tail);
        assert(tail =~= tail.take(tail.len() - 8 - size) + postscript_bytes(tail) + tail.skip(
            tail.len() - 8,
        ));
    }
}

/// A file whose end has no marker, or a broken postscript, has no ranges of metadata.
pub proof fn law_no_postscript_no_meta(meta: Seq<VizMeta>, tail: Seq<u8>, file_size: nat)
    requires
        meta_models(meta) == meta_of(tail, file_size),
        !has_postscript(tail) || !postscript_readable(postscript_bytes(tail)),
    ensures
        meta.len() == 0,
{
    assert(meta_models(meta).len() == 0);
}

/// Where each range stands among the ranges of a file's metadata.
proof fn lemma_meta_places(file_size: nat, ps_size: nat, postscript: PostscriptSegments)
    ensures
        ({
            let ranges = meta_ranges(file_size, ps_size, postscript);
            let layout_at: int = if postscript.dtype is Some { 1 } else { 0 };
            let statistics_at: int = if postscript.layout is Some { layout_at + 1 } else {
                layout_at
            };
            let footer_at: int = if postscript.statistics is Some { statistics_at + 1 } else {
                statistics_at
            };
            let told_count: int = if postscript.footer is Some { footer_at + 1 } else { footer_at };
            &&& ranges.len() == told_count + 2
            &&& postscript.dtype matches Some(s) ==> told("dtype"@, Some(s)) == seq![ranges[0]]
            &&& postscript.layout matches Some(s) ==> told("layout"@, Some(s))
                == seq![ranges[layout_at]]
            &&& postscript.statistics matches Some(s) ==> told("statistics"@, Some(s))
                == seq![ranges[statistics_at]]
            &&& postscript.footer matches Some(s) ==> told("footer"@, Some(s))
                == seq![ranges[footer_at]]
            &&& ranges[told_count] == (MetaModel {
                name: "postscript"@,
                byte_offset: (file_size - 8 - ps_size) as nat,
                byte_length: ps_size,
            })
            &&& ranges[told_count + 1] == (MetaModel {
                name: "EOF"@,
                byte_offset: (file_size - 8) as nat,
                byte_length: 8,
            })
        }),
{
}

/// Each part that the postscript tells of is listed once, under its name, with the offset and the
/// length that the postscript gives it, and a part that it does not tell of is not listed. They come
/// in the order dtype, layout, statistics and footer. Behind them come the postscript itself, with
/// its size, and the marker of eight bytes, with which the file ends.
#[verifier::spinoff_prover]
#[verifier::rlimit(50)]
pub proof fn law_meta_tells_postscript(meta: Seq<VizMeta>, tail: Seq<u8>, file_size: u64)
    requires
        tail.len() <= file_size,
        meta_models(meta) == meta_of(tail, file_size as nat),
        has_postscript(tail),
        postscript_readable(postscript_bytes(tail)),
    ensures
        ({
            let told_of = postscript_at(postscript_bytes(tail));
            let size = tail[tail.len() - 6] + 256 * tail[tail.len() - 5];
            let n = meta.len() as int;
            let layout_at: int = if told_of.dtype is Some { 1 } else { 0 };
            let statistics_at: int = if told_of.layout is Some { layout_at + 1 } else { layout_at };
            let footer_at: int = if told_of.statistics is Some { statistics_at + 1 } else {
                statistics_at
            };
            let told_count: int = if told_of.footer is Some { footer_at + 1 } else { footer_at };
            &&& n == told_count + 2
            &&& told_of.dtype matches Some(s) ==> {
                &&& meta[0].name@ == "dtype"@
                &&& meta[0].byte_offset == s.offset
                &&& meta[0].byte_length == s.length
                &&& forall|j: int|
                    0 <= j < n && j != 0 ==> (#[trigger] meta[j]).name@ != "dtype"@
            }
            &&& told_of.dtype is None ==> forall|j: int|
                0 <= j < n ==> (#[trigger] meta[j]).name@ != "dtype"@
            &&& told_of.layout matches Some(s) ==> {
                &&& meta[layout_at].name@ == "layout"@
                &&& meta[layout_at].byte_offset == s.offset
                &&& meta[layout_at].byte_length == s.length
                &&& forall|j: int|
                    0 <= j < n && j != layout_at ==> (#[trigger] meta[j]).name@ != "layout"@
            }
            &&& told_of.layout is None ==> forall|j: int|
                0 <= j < n ==> (#[trigger] meta[j]).name@ != "layout"@
            &&& told_of.statistics matches Some(s) ==> {
                &&& meta[statistics_at].name@ == "statistics"@
                &&& meta[statistics_at].byte_offset == s.offset
                &&& meta[statistics_at].byte_length == s.length
                &&& forall|j: int|
                    0 <= j < n && j != statistics_at ==> (#[trigger] meta[j]).name@
                        != "statistics"@
            }
            &&& told_of.statistics is None ==> forall|j: int|
                0 <= j < n ==> (#[trigger] meta[j]).name@ != "statistics"@
            &&& told_of.footer matches Some(s) ==> {
                &&& meta[footer_at].name@ == "footer"@
                &&& meta[footer_at].byte_offset == s.offset
                &&& meta[footer_at].byte_length == s.length
                &&& forall|j: int|
                    0 <= j < n && j != footer_at ==> (#[trigger] meta[j]).name@ != "footer"@
            }
            &&& told_of.footer is None ==> forall|j: int|
                0 <= j < n ==> (#[trigger] meta[j]).name@ != "footer"@
            &&& meta[n - 2].name@ == "postscript"@
            &&& meta[n - 2].byte_length == size
            &&& meta[n - 2].byte_offset + size + 8 == file_size
            &&& meta[n - 1].name@ == "EOF"@
            &&& meta[n - 1].byte_length == 8
            &&& meta[n - 1].byte_offset + 8 == file_size
        }),
{
    reveal_strlit("dtype");
    reveal_strlit("layout");
    reveal_strlit("statistics");
    reveal_strlit("footer");
    reveal_strlit("postscript");
    reveal_strlit("EOF");
    let told_of = postscript_at(postscript_bytes(tail));
    let size = postscript_size(tail);
    let models = meta_models(meta);
    lemma_meta_places(file_size as nat, size as nat, told_of);
    assert(models.len() == meta.len());
    assert forall|j: int| 0 <= j < meta.len() implies {
        &&& (#[trigger] meta[j]).name@ == models[j].name
        &&& meta[j].byte_offset == models[j].byte_offset
        &&& meta[j].byte_length == models[j].byte_length
    } by {
        assert(models[j] == meta[j]@);
    }
    let layout_at: int = if told_of.dtype is Some { 1 } else { 0 };
    let statistics_at: int = if told_of.layout is Some { layout_at + 1 } else { layout_at };
    let footer_at: int = if told_of.statistics is Some { statistics_at + 1 } else { statistics_at };
    let told_count: int = if told_of.footer is Some { footer_at + 1 } else { footer_at };
    // the six names differ in their first letter
    assert forall|j: int| 0 <= j < meta.len() implies {
        let letter = (#[trigger] meta[j]).name@[0];
        &&& letter == 'd' <==> told_of.dtype is Some && j == 0
        &&& letter == 'l' <==> told_of.layout is Some && j == layout_at
        &&& letter == 's' <==> told_of.statistics is Some && j == statistics_at
        &&& letter == 'f' <==> told_of.footer is Some && j == footer_at
    } by {
        if j < layout_at {
            assert(meta[j].name@ == "dtype"@);
        } else if j < statistics_at {
            assert(meta[j].name@ == "layout"@);
        } else if j < footer_at {
            assert(meta[j].name@ == "statistics"@);
        } else if j < told_count {
            assert(meta[j].name@ == "footer"@);
        } else if j == told_count {
            assert(meta[j].name@ == "postscript"@);
        } else {
            assert(meta[j].name@ == "EOF"@);
        }
    }
}

/// The bytes at the end of a file that are read are its last bytes, all of them where there are no
/// more than 65535 and else that many.
pub proof fn law_tail_ends_file(file: Seq<u8>)
    ensures
        tail_of(file).len() <= 65535,
        tail_of(file).len() == file.len() || tail_of(file).len() == 65535,
        tail_of(file) == file.skip(file.len() - tail_of(file).len()),
{
    assert(file.skip(0) =~= file);
}

/// The size of a file is what the file system says, or the furthest end of a segment, and not less
/// than either.
pub proof fn law_size_of_file(metadata_len: Option<u64>, furthest: int)
    ensures
        size_of_file(metadata_len, furthest) >= furthest,
        metadata_len is None ==> size_of_file(metadata_len, furthest) == furthest,
        metadata_len matches Some(len) ==> size_of_file(metadata_len, furthest) >= len && (
        size_of_file(metadata_len, furthest) == len || size_of_file(metadata_len, furthest)
            == furthest),
{
}

/// The page is the template with the serialized model where the placeholder stood, and nothing else
/// changed.
pub proof fn law_page_embeds_model(json: Seq<char>) -> (parts: (Seq<char>, Seq<char>))
    ensures
        TEMPLATE@ == parts.0 + "/*__VORTEX_DATA__*/"@ + parts.1,
        page_of(json) == parts.0 + json + parts.1,
{
    law_template_has_one_placeholder();
    let at = placeholder_at();
    let head = TEMPLATE@.take(at);
    let tail = TEMPLATE@.skip(at + DATA_PLACEHOLDER@.len());
    assert(crate::text::occurs_at(TEMPLATE@, DATA_PLACEHOLDER@, at));
    assert(TEMPLATE@ =~= head + DATA_PLACEHOLDER@ + tail);
    (head, tail)
}

/// The columns that are shown are those of the display order that have segments, each once.
pub proof fn law_shown_columns(tree: TreeModel)
    ensures
        shown_columns(tree).no_duplicates(),
        forall|name: Seq<char>| #[trigger]
            shown_columns(tree).contains(name) <==> tree.ordering.contains(name)
                && tree.segments.contains_key(name),
{
    lemma_shown(tree, tree.ordering.len() as int);
    assert(tree.ordering.take(tree.ordering.len() as int) =~= tree.ordering);
}

proof fn lemma_shown(tree: TreeModel, n: int)
    requires
        0 <= n <= tree.ordering.len(),
    ensures
        shown(tree, n).no_duplicates(),
        forall|name: Seq<char>| #[trigger]
            shown(tree, n).contains(name) <==> tree.ordering.take(n).contains(name)
                && tree.segments.contains_key(name),
    decreases n,
{
    if n > 0 {
        lemma_shown(tree, n - 1);
        lemma_taken(tree.ordering, n - 1);
        let before = shown(tree, n - 1);
        let name = tree.ordering[n - 1];
        let after = shown(tree, n);
        assert forall|other: Seq<char>| #[trigger]
            after.contains(other) <==> tree.ordering.take(n).contains(other)
                && tree.segments.contains_key(other) by {
            if before.contains(other) {
                let i = choose|i: int| 0 <= i < before.len() && before[i] == other;
                assert(after[i] == other);
            }
            if after.contains(other) && !before.contains(other) {
                let i = choose|i: int| 0 <= i < after.len() && after[i] == other;
                if i < before.len() {
                    assert(before[i] == other);
                }
                assert(other == name);
            }
            assert(tree.ordering.take((n - 1) + 1).contains(other) <==> tree.ordering.take(
                n - 1,
            ).contains(other) || other == name);
            assert(tree.ordering.take((n - 1) + 1) =~= tree.ordering.take(n));
            assert(tree.ordering.take(n).contains(other) <==> tree.ordering.take(n - 1).contains(
                other,
            ) || other == name);
            assert(before.contains(other) <==> tree.ordering.take(n - 1).contains(other)
                && tree.segments.contains_key(other));
            if before.contains(other) {
                assert(after.contains(other));
            }
            if other == name && tree.segments.contains_key(name) && !before.contains(name) {
                assert(after[before.len() as int] == name);
            }
        }
        if after != before {
            assert(!before.contains(name));
        }
    }
}

/// The columns are shown in display order: of two shown columns, the earlier one stands in the order
/// at `k`, and up to there the later one does not.
pub proof fn law_shown_in_order(tree: TreeModel, a: int, b: int) -> (k: int)
    requires
        0 <= a < b < shown_columns(tree).len(),
    ensures
        0 <= k < tree.ordering.len(),
        tree.ordering[k] == shown_columns(tree)[a],
        forall|j: int| 0 <= j <= k ==> #[trigger] tree.ordering[j] != shown_columns(tree)[b],
{
    lemma_shown_in_order(tree, tree.ordering.len() as int, a, b)
}

proof fn lemma_shown_in_order(tree: TreeModel, n: int, a: int, b: int) -> (k: int)
    requires
        0 <= n <= tree.ordering.len(),
        0 <= a < b < shown(tree, n).len(),
    ensures
        0 <= k < n,
        tree.ordering[k] == shown(tree, n)[a],
        forall|j: int| 0 <= j <= k ==> #[trigger] tree.ordering[j] != shown(tree, n)[b],
    decreases n,
{
    let before = shown(tree, n - 1);
    if b < before.len() {
        lemma_shown_in_order(tree, n - 1, a, b)
    } else {
        lemma_shown(tree, n - 1);
        let taken = tree.ordering.take(n - 1);
        assert(before.contains(before[a]));
        assert(taken.contains(before[a]));
        let k = choose|k: int| 0 <= k < taken.len() && taken[k] == before[a];
        assert forall|j: int| 0 <= j <= k implies #[trigger] tree.ordering[j] != shown(
            tree,
            n,
        )[b] by {
            assert(taken[j] == tree.ordering[j]);
            assert(taken.contains(taken[j]));
        }
        k
    }
}

/// The names of segments are gathered column by column, each column's in the order of its segments
/// by offset.
pub proof fn law_names_in_order(
    columns: Seq<Seq<char>>,
    column: Seq<char>,
    segments: Map<Seq<char>, Seq<SegmentModel>>,
)
    ensures
        names_in_order(Seq::empty(), segments) == Seq::<Seq<char>>::empty(),
        names_in_order(columns.push(column), segments) == names_in_order(columns, segments)
            + Seq::new(
            by_offset(segments[column]).len(),
            |k: int| by_offset(segments[column])[k].name,
        ),
{
    assert(columns.push(column).drop_last() =~= columns);
    assert(segment_names(by_offset(segments[column])) =~= Seq::new(
        by_offset(segments[column]).len(),
        |k: int| by_offset(segments[column])[k].name,
    ));
}

/// The table holds the names of the segments of all shown columns.
proof fn lemma_name_in_table(tree: TreeModel, c: int, k: int)
    requires
        0 <= c < shown_columns(tree).len(),
        0 <= k < by_offset(tree.segments[shown_columns(tree)[c]]).len(),
    ensures
        name_table(tree).contains(by_offset(tree.segments[shown_columns(tree)[c]])[k].name),
{
    lemma_name_in_order(shown_columns(tree), tree.segments, c, k);
    law_interned(names_in_order(shown_columns(tree), tree.segments));
}

proof fn lemma_name_in_order(
    columns: Seq<Seq<char>>,
    segments: Map<Seq<char>, Seq<SegmentModel>>,
    c: int,
    k: int,
)
    requires
        0 <= c < columns.len(),
        0 <= k < by_offset(segments[columns[c]]).len(),
    ensures
        names_in_order(columns, segments).contains(by_offset(segments[columns[c]])[k].name),
    decreases columns.len(),
{
    let name = by_offset(segments[columns[c]])[k].name;
    let front = names_in_order(columns.drop_last(), segments);
    let own = segment_names(by_offset(segments[columns.last()]));
    if c == columns.len() - 1 {
        assert(own[k] == name);
        assert(names_in_order(columns, segments)[front.len() + k] == name);
    } else {
        assert(columns.drop_last()[c] == columns[c]);
        lemma_name_in_order(columns.drop_last(), segments, c, k);
        let i = choose|i: int| 0 <= i < front.len() && front[i] == name;
        assert(names_in_order(columns, segments)[i] == name);
    }
}

/// A column lists the segments that the tree holds under its name, none lost and none twice, by
/// their offset, those with the same offset in the order in which they came. Its arrays give of each
/// the offset, the length, the first row and the number of rows, and the place of its name in the
/// table of names.
#[verifier::spinoff_prover]
pub proof fn law_column_lists_segments(
    tree: SegmentTree,
    columns: Seq<VizColumn>,
    names: Seq<String>,
    c: int,
) -> (order: Seq<usize>)
    requires
        column_models(columns) == columns_of(tree@),
        texts(names) == name_table(tree@),
        0 <= c < columns.len(),
    ensures
        columns.len() == shown_columns(tree@).len(),
        columns[c].name@ == shown_columns(tree@)[c],
        tree.segments@.contains_key(columns[c].name@),
        ({
            let segments = tree.segments@[columns[c].name@]@;
            let column = columns[c];
            &&& order.len() == segments.len()
            &&& order.no_duplicates()
            &&& column.o@.len() == segments.len()
            &&& column.l@.len() == segments.len()
            &&& column.ro@.len() == segments.len()
            &&& column.rc@.len() == segments.len()
            &&& column.n@.len() == segments.len()
            &&& forall|k: int|
                0 <= k < order.len() ==> {
                    &&& (#[trigger] order[k]) < segments.len()
                    &&& column.o@[k] == segments[order[k] as int].spec.offset
                    &&& column.l@[k] == segments[order[k] as int].spec.length
                    &&& column.ro@[k] == segments[order[k] as int].row_offset
                    &&& column.rc@[k] == segments[order[k] as int].row_count
                    &&& names.len() <= 0x1_0000_0000 ==> {
                        &&& column.n@[k] < names.len()
                        &&& names[column.n@[k] as int]@ == segments[order[k] as int].name@
                    }
                }
            &&& forall|a: int, b: int|
                0 <= a < b < order.len() ==> {
                    &&& #[trigger] column.o@[a] <= #[trigger] column.o@[b]
                    &&& column.o@[a] == column.o@[b] ==> order[a] < order[b]
                }
        }),
{
    let model = tree@;
    let shown_names = shown_columns(model);
    let column = columns[c];
    assert(column_models(columns)[c] == column@);
    assert(column_models(columns).len() == columns.len());
    let name = shown_names[c];
    assert(columns_of(model)[c] == column_of(name, by_offset(model.segments[name]), name_table(model)));
    assert(column.name@ == name);
    law_shown_columns(model);
    assert(shown_names.contains(name));
    let listed = tree.segments@[name];
    let segments = listed@;
    let models = segment_models(segments);
    assert(model.segments[name] == models);
    assert(listed.len() == segments.len());
    let sorted = by_offset(models);
    let order = law_by_offset(models);
    law_interned(names_in_order(shown_names, model.segments));
    let table = name_table(model);
    assert(texts(names).len() == names.len());
    assert forall|k: int| 0 <= k < order.len() implies {
        &&& (#[trigger] order[k]) < segments.len()
        &&& column.o@[k] == segments[order[k] as int].spec.offset
        &&& column.l@[k] == segments[order[k] as int].spec.length
        &&& column.ro@[k] == segments[order[k] as int].row_offset
        &&& column.rc@[k] == segments[order[k] as int].row_count
        &&& names.len() <= 0x1_0000_0000 ==> {
            &&& column.n@[k] < names.len()
            &&& names[column.n@[k] as int]@ == segments[order[k] as int].name@
        }
    } by {
        assert(sorted[k] == models[order[k] as int]);
        assert(models[order[k] as int] == segments[order[k] as int]@);
        lemma_name_in_table(model, c, k);
        let i = choose|i: int| 0 <= i < table.len() && table[i] == sorted[k].name;
        law_place_of(table, i);
        assert(column.n@[k] == place_of(table, sorted[k].name));
        if names.len() <= 0x1_0000_0000 {
            assert(texts(names)[i] == names[i]@);
        }
    }
    assert forall|a: int, b: int| 0 <= a < b < order.len() implies {
        &&& #[trigger] column.o@[a] <= #[trigger] column.o@[b]
        &&& column.o@[a] == column.o@[b] ==> order[a] < order[b]
    } by {
        assert(column.o@[a] == sorted[a].spec.offset);
        assert(column.o@[b] == sorted[b].spec.offset);
    }
    order
}

/// Which segment of which column the name at a place among the gathered names is of.
proof fn lemma_name_place(
    columns: Seq<Seq<char>>,
    segments: Map<Seq<char>, Seq<SegmentModel>>,
    p: int,
) -> (place: (int, int))
    requires
        0 <= p < names_in_order(columns, segments).len(),
    ensures
        ({
            let (c, k) = place;
            &&& 0 <= c < columns.len()
            &&& 0 <= k < by_offset(segments[columns[c]]).len()
            &&& names_in_order(columns, segments)[p] == by_offset(segments[columns[c]])[k].name
            &&& p == names_in_order(columns.take(c), segments).len() + k
        }),
    decreases columns.len(),
{
    let front = names_in_order(columns.drop_last(), segments);
    if p < front.len() {
        let (c, k) = lemma_name_place(columns.drop_last(), segments, p);
        assert(columns.drop_last().take(c) =~= columns.take(c));
        (c, k)
    } else {
        let c = columns.len() - 1;
        assert(columns.take(c) =~= columns.drop_last());
        assert(segment_names(by_offset(segments[columns[c]])).len() == by_offset(
            segments[columns[c]],
        ).len());
        (c, p - front.len())
    }
}

/// Where the name of a segment of a column stands among the gathered names.
proof fn lemma_place_of_name(
    columns: Seq<Seq<char>>,
    segments: Map<Seq<char>, Seq<SegmentModel>>,
    c: int,
    k: int,
)
    requires
        0 <= c < columns.len(),
        0 <= k < by_offset(segments[columns[c]]).len(),
    ensures
        ({
            let p = names_in_order(columns.take(c), segments).len() + k;
            &&& names_in_order(columns.take(c), segments).len() + by_offset(
                segments[columns[c]],
            ).len() == names_in_order(columns.take(c + 1), segments).len()
            &&& p < names_in_order(columns, segments).len()
            &&& names_in_order(columns, segments)[p] == by_offset(segments[columns[c]])[k].name
        }),
    decreases columns.len(),
{
    let own = segment_names(by_offset(segments[columns[c]]));
    assert(own.len() == by_offset(segments[columns[c]]).len());
    assert(own[k] == by_offset(segments[columns[c]])[k].name);
    assert(columns.take(c + 1).drop_last() =~= columns.take(c));
    assert(columns.take(c + 1).last() == columns[c]);
    if c + 1 == columns.len() {
        assert(columns.take(c + 1) =~= columns);
    } else {
        let front = columns.drop_last();
        lemma_place_of_name(front, segments, c, k);
        assert(front.take(c) =~= columns.take(c));
    }
}

/// Fewer columns have fewer names.
proof fn lemma_names_grow(
    columns: Seq<Seq<char>>,
    segments: Map<Seq<char>, Seq<SegmentModel>>,
    a: int,
    b: int,
)
    requires
        0 <= a <= b <= columns.len(),
    ensures
        names_in_order(columns.take(a), segments).len() <= names_in_order(
            columns.take(b),
            segments,
        ).len(),
    decreases b - a,
{
    if a < b {
        lemma_names_grow(columns, segments, a, b - 1);
        assert(columns.take(b).drop_last() =~= columns.take(b - 1));
    }
}

/// The table of names holds the names of the shown columns' segments, each once, and no others.
pub proof fn law_name_table(tree: TreeModel)
    ensures
        name_table(tree).no_duplicates(),
        forall|c: int, k: int|
            0 <= c < shown_columns(tree).len() && 0 <= k < by_offset(
                tree.segments[shown_columns(tree)[c]],
            ).len() ==> name_table(tree).contains(
                (#[trigger] by_offset(tree.segments[shown_columns(tree)[c]])[k]).name,
            ),
        forall|a: int|
            0 <= a < name_table(tree).len() ==> exists|c: int, k: int|
                0 <= c < shown_columns(tree).len() && 0 <= k < by_offset(
                    tree.segments[shown_columns(tree)[c]],
                ).len() && (#[trigger] by_offset(tree.segments[shown_columns(tree)[c]])[k]).name
                    == #[trigger] name_table(tree)[a],
{
    let columns = shown_columns(tree);
    let names = names_in_order(columns, tree.segments);
    law_interned(names);
    assert forall|c: int, k: int|
        0 <= c < columns.len() && 0 <= k < by_offset(tree.segments[columns[c]]).len() implies
        name_table(tree).contains((#[trigger] by_offset(tree.segments[columns[c]])[k]).name) by {
        lemma_name_in_table(tree, c, k);
    }
    assert forall|a: int| 0 <= a < name_table(tree).len() implies exists|c: int, k: int|
        0 <= c < columns.len() && 0 <= k < by_offset(tree.segments[columns[c]]).len() && (
        #[trigger] by_offset(tree.segments[columns[c]])[k]).name == #[trigger] name_table(
            tree,
        )[a] by {
        assert(name_table(tree).contains(name_table(tree)[a]));
        let p = choose|p: int| 0 <= p < names.len() && names[p] == name_table(tree)[a];
        let (c, k) = lemma_name_place(columns, tree.segments, p);
        assert(by_offset(tree.segments[columns[c]])[k].name == name_table(tree)[a]);
    }
}

/// The table of names holds them in the order in which they first come, column by column and in each
/// by offset: of two names in it, the earlier one is that of segment `k` of column `c`, and no
/// segment up to there has the later one.
pub proof fn law_name_table_by_first(tree: TreeModel, a: int, b: int) -> (place: (int, int))
    requires
        0 <= a < b < name_table(tree).len(),
    ensures
        ({
            let (c, k) = place;
            let columns = shown_columns(tree);
            &&& 0 <= c < columns.len()
            &&& 0 <= k < by_offset(tree.segments[columns[c]]).len()
            &&& by_offset(tree.segments[columns[c]])[k].name == name_table(tree)[a]
            &&& forall|x: int, y: int|
                0 <= x < columns.len() && 0 <= y < by_offset(tree.segments[columns[x]]).len() && (x
                    < c || (x == c && y <= k)) ==> (#[trigger] by_offset(
                    tree.segments[columns[x]],
                )[y]).name != name_table(tree)[b]
        }),
{
    let columns = shown_columns(tree);
    let names = names_in_order(columns, tree.segments);
    let p = law_interned_by_first(names, a, b);
    let (c, k) = lemma_name_place(columns, tree.segments, p);
    assert forall|x: int, y: int|
        0 <= x < columns.len() && 0 <= y < by_offset(tree.segments[columns[x]]).len() && (x < c || (x
            == c && y <= k)) implies (#[trigger] by_offset(tree.segments[columns[x]])[y]).name
        != name_table(tree)[b] by {
        lemma_place_of_name(columns, tree.segments, x, y);
        let q = names_in_order(columns.take(x), tree.segments).len() + y;
        if x < c {
            lemma_names_grow(columns, tree.segments, x + 1, c);
        }
        assert(q <= p);
        assert(names[q as int] == by_offset(tree.segments[columns[x]])[y].name);
    }
    (c, k)
}

/// The ends of all segments fit 64 bits where each segment's offset and length together do.
pub proof fn law_ends_fit(footer: FooterModel)
    ensures
        footer.ends_fit() <==> forall|i: int|
            0 <= i < footer.segment_map.len() ==> (#[trigger] footer.segment_map[i]).offset
                + footer.segment_map[i].length <= 0xffff_ffff_ffff_ffff,
{
    if footer.ends_fit() {
        assert forall|i: int| 0 <= i < footer.segment_map.len() implies (
        #[trigger] footer.segment_map[i]).offset + footer.segment_map[i].length
            <= 0xffff_ffff_ffff_ffff by {
            assert(segment_end(footer.segment_map[i]) <= u64::MAX);
        }
    }
}

/// The model of a footer's file has what the footer has: its segments, rows, schema and splits.
pub proof fn law_footer_view(footer: FileFooter, k: int)
    ensures
        footer@.segment_tree == footer.segment_tree@,
        footer@.segment_map == footer.segment_map@,
        footer@.row_count == footer.row_count,
        footer@.schema == footer.schema@,
        footer@.splits.len() == footer.splits@.len(),
        0 <= k < footer.splits@.len() ==> footer@.splits[k] == footer.splits@[k]@,
{
}

/// What is read of the end of a file ends where the file does, is all of a file of up to 65535
/// bytes, and is 65535 bytes of a longer one.
pub proof fn law_tail_range(file_size: u64, range: (u64, u64))
    requires
        call_ensures(tail_range, (file_size,), range),
    ensures
        range.0 + range.1 == file_size,
        file_size <= 65535 ==> range.0 == 0,
        file_size > 65535 ==> range.1 == 65535,
{
}

/// The page is written where it was asked for, and else beside the stem of the file's name.
pub proof fn law_output_path(
    args: &VisualizeArgs,
    file_stem: Option<String>,
    path: String,
)
    requires
        call_ensures(VisualizeArgs::output_path, (args, file_stem), path),
    ensures
        args.output matches Some(output) ==> path@ == output@,
        args.output is None ==> path@.skip(path@.len() - 12) == ".layout.html"@,
        args.output is None ==> (file_stem matches Some(stem) ==> path@.take(path@.len() - 12)
            == stem@),
        args.output is None && file_stem is None ==> path@.take(path@.len() - 12) == "vortex"@,
{
    reveal_strlit(".layout.html");
}

/// The display name is the file's name where its path has one, and else the path.
pub proof fn law_display_name(args: &VisualizeArgs, file_name: Option<String>, name: String)
    requires
        call_ensures(VisualizeArgs::display_name, (args, file_name), name),
    ensures
        file_name matches Some(last) ==> name@ == last@,
        file_name is None ==> name@ == args.file@,
{
}

/// What [`build_model`] makes of a footer tells of every split, in its place, the start and the end
/// that the footer tells, and of the rest what it was given.
pub proof fn law_built_model_tells_footer(
    file: String,
    footer: FileFooter,
    file_size: u64,
    tail: Option<&[u8]>,
    model: VizModel,
    k: int,
)
    requires
        call_ensures(build_model, (file, footer, file_size, tail), model),
    ensures
        model.file@ == file@,
        model.file_size == file_size,
        model.row_count == footer.row_count,
        model.schema@ == footer.schema@,
        model.splits@.len() == footer.splits@.len(),
        0 <= k < footer.splits@.len() ==> model.splits@[k]@[0] == footer.splits@[k]@[0]
            && model.splits@[k]@[1] == footer.splits@[k]@[1],
        tail is None ==> model.meta@.len() == 0,
{
    assert(0 <= k < footer.splits@.len() ==> model.splits@[k]@[0] == footer.splits@[k]@[0]);
}

/// What [`build_model`] makes of a footer lists under each column's name the segments that the
/// footer holds under it, by their offset, with their rows, places and names.
pub proof fn law_built_model_lists_segments(
    file: String,
    footer: FileFooter,
    file_size: u64,
    tail: Option<&[u8]>,
    model: VizModel,
    c: int,
) -> (order: Seq<usize>)
    requires
        call_ensures(build_model, (file, footer, file_size, tail), model),
        0 <= c < model.columns@.len(),
    ensures
        ({
            let column = model.columns@[c];
            let segments = footer.segment_tree.segments@[column.name@]@;
            &&& footer.segment_tree.segments@.contains_key(column.name@)
            &&& order.len() == segments.len()
            &&& order.no_duplicates()
            &&& column.o@.len() == segments.len()
            &&& column.l@.len() == segments.len()
            &&& column.ro@.len() == segments.len()
            &&& column.rc@.len() == segments.len()
            &&& column.n@.len() == segments.len()
            &&& forall|k: int|
                0 <= k < order.len() ==> {
                    &&& (#[trigger] order[k]) < segments.len()
                    &&& column.o@[k] == segments[order[k] as int].spec.offset
                    &&& column.l@[k] == segments[order[k] as int].spec.length
                    &&& column.ro@[k] == segments[order[k] as int].row_offset
                    &&& column.rc@[k] == segments[order[k] as int].row_count
                    &&& model.seg_names@.len() <= 0x1_0000_0000 ==> {
                        &&& column.n@[k] < model.seg_names@.len()
                        &&& model.seg_names@[column.n@[k] as int]@
                            == segments[order[k] as int].name@
                    }
                }
        }),
{
    law_column_lists_segments(footer.segment_tree, model.columns@, model.seg_names@, c)
}

/// What [`read_meta_segments`] finds at the end of a file with a postscript that can be read: each
/// part that the postscript tells of once, under its name and with its offset and length, and the
/// postscript and the marker behind them.
pub proof fn law_read_meta_tells_postscript(tail: &[u8], file_size: u64, meta: Vec<VizMeta>)
    requires
        tail@.len() <= file_size,
        call_ensures(read_meta_segments, (tail, file_size), meta),
        has_postscript(tail@),
        postscript_readable(postscript_bytes(tail@)),
    ensures
        ({
            let told_of = postscript_at(postscript_bytes(tail@));
            let n = meta@.len() as int;
            &&& told_of.dtype matches Some(s) ==> exists|j: int|
                0 <= j < n && (#[trigger] meta@[j]).name@ == "dtype"@ && meta@[j].byte_offset
                    == s.offset && meta@[j].byte_length == s.length
            &&& told_of.layout matches Some(s) ==> exists|j: int|
                0 <= j < n && (#[trigger] meta@[j]).name@ == "layout"@ && meta@[j].byte_offset
                    == s.offset && meta@[j].byte_length == s.length
            &&& told_of.statistics matches Some(s) ==> exists|j: int|
                0 <= j < n && (#[trigger] meta@[j]).name@ == "statistics"@ && meta@[j].byte_offset
                    == s.offset && meta@[j].byte_length == s.length
            &&& told_of.footer matches Some(s) ==> exists|j: int|
                0 <= j < n && (#[trigger] meta@[j]).name@ == "footer"@ && meta@[j].byte_offset
                    == s.offset && meta@[j].byte_length == s.length
            &&& n >= 2
            &&& meta@[n - 2].byte_offset + meta@[n - 2].byte_length == meta@[n - 1].byte_offset
            &&& meta@[n - 1].byte_offset + meta@[n - 1].byte_length == file_size
        }),
{
    law_meta_tells_postscript(meta@, tail@, file_size);
    let told_of = postscript_at(postscript_bytes(tail@));
    let layout_at: int = if told_of.dtype is Some { 1 } else { 0 };
    let statistics_at: int = if told_of.layout is Some { layout_at + 1 } else { layout_at };
    let footer_at: int = if told_of.statistics is Some { statistics_at + 1 } else { statistics_at };
    assert(told_of.dtype is Some ==> meta@[0].name@ == "dtype"@);
    assert(told_of.layout is Some ==> meta@[layout_at].name@ == "layout"@);
    assert(told_of.statistics is Some ==> meta@[statistics_at].name@ == "statistics"@);
    assert(told_of.footer is Some ==> meta@[footer_at].name@ == "footer"@);
}

/// The size of a file is what the file system says where no segment ends behind that, and else the
/// furthest end of a segment.
pub proof fn law_file_size_of_footer(footer: &FileFooter, metadata_len: Option<u64>, size: u64)
    requires
        call_ensures(FileFooter::file_size, (footer, metadata_len), size),
    ensures
        metadata_len matches Some(len) ==> size >= len,
        forall|i: int|
            0 <= i < footer.segment_map@.len() ==> (#[trigger] footer.segment_map@[i]).offset
                + footer.segment_map@[i].length <= size,
        metadata_len == Some(size) || (size == 0 && footer.segment_map@.len() == 0) || exists|i: int|
            0 <= i < footer.segment_map@.len() && (#[trigger] footer.segment_map@[i]).offset
                + footer.segment_map@[i].length == size,
{
}

/// The page that is rendered is the template with the serialized model where the placeholder stood.
pub proof fn law_render_calls(json: &str, html: String) -> (parts: (Seq<char>, Seq<char>))
    requires
        call_ensures(render_html, (json,), html),
    ensures
        TEMPLATE@ == parts.0 + "/*__VORTEX_DATA__*/"@ + parts.1,
        html@ == parts.0 + json@ + parts.1,
{
    law_page_embeds_model(json@)
}

/// The postscript stands right before the marker at the end, and is as long as the marker tells.
pub proof fn law_locate_calls(tail: &[u8], place: Option<(usize, usize)>)
    requires
        call_ensures(locate_postscript, (tail,), place),
    ensures
        place is Some <==> {
            let n = tail@.len() as int;
            &&& n >= 8
            &&& tail@[n - 4] == 0x56
            &&& tail@[n - 3] == 0x54
            &&& tail@[n - 2] == 0x58
            &&& tail@[n - 1] == 0x46
            &&& tail@[n - 6] + 256 * tail@[n - 5] + 8 <= n
        },
        place matches Some((start, end)) ==> {
            let n = tail@.len() as int;
            &&& end + 8 == n
            &&& start + tail@[n - 6] + 256 * tail@[n - 5] == end
        },
{
    law_marker(tail@);
}

} // verus!
