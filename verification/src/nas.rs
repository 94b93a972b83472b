//! Architecture-graph search primitives for neural architecture search.
//!
//! A macro-architecture, a linear stack of cells in which each cell chooses one operation from
//! a shared palette plus a channel width and an optional skip connection from the previous
//! cell, is encoded as an ordinary conditional [`SearchSpace`], so that every sampler searches
//! architectures. The engine knows only operation names; a framework adapter maps a decoded
//! [`Architecture`] onto concrete layers.

use vstd::prelude::*;
use crate::distribution::{clone_texts, contains_text, invalid, Distribution, DistModel};
use crate::error::{Error, Reason};
use crate::param::{Assignment, ParamModel, ParamSet, ParamValue};
use crate::rng::TrialRng;
use crate::space::{Condition, ConditionModel, DefModel, SearchSpace, SpaceModel};
use crate::text::{decimal_text, ends_in_digit, join, parse_decimal};
#[allow(unused_imports)]
use crate::models;
#[allow(unused_imports)]
use crate::param;
#[allow(unused_imports)]
use crate::space;
#[allow(unused_imports)]
use crate::text;

verus! {

/// A reusable, named set of candidate operations shared across every cell of a
/// macro-architecture.
#[derive(Debug)]
pub struct OpPalette {
    ops: Vec<String>,
}

/// The items without those that repeat an earlier one.
pub open spec fn first_of_each(items: Seq<Seq<char>>) -> Seq<Seq<char>>
    decreases items.len(),
{
    if items.len() == 0 {
        Seq::empty()
    } else {
        let rest = first_of_each(items.drop_last());
        if rest.contains(items.last()) {
            rest
        } else {
            rest.push(items.last())
        }
    }
}

proof fn first_of_each_holds(items: Seq<Seq<char>>, x: Seq<char>)
    ensures
        first_of_each(items).contains(x) <==> items.contains(x),
        first_of_each(items).no_duplicates(),
    decreases items.len(),
{
    if items.len() > 0 {
        let head = items.drop_last();
        let rest = first_of_each(head);
        first_of_each_holds(head, x);
        first_of_each_holds(head, items.last());
        let all = first_of_each(items);
        if rest.contains(x) {
            let i = rest.index_of(x);
            assert(all[i] == x);
        }
        if head.contains(x) {
            let i = head.index_of(x);
            assert(items[i] == x);
        }
        if items.contains(x) {
            let i = items.index_of(x);
            if i < head.len() {
                assert(head[i] == x);
            } else if !rest.contains(x) {
                assert(all[rest.len() as int] == x);
            }
        }
        if all.contains(x) && !rest.contains(x) {
            let i = all.index_of(x);
            if i < rest.len() {
                assert(rest[i] == x);
            }
            assert(items[items.len() - 1] == x);
        }
    }
}

impl View for OpPalette {
    type V = Seq<Seq<char>>;

    closed spec fn view(&self) -> Seq<Seq<char>> {
        models::of(self.ops@)
    }
}

impl OpPalette {
    #[verifier::type_invariant]
    spec fn usable(self) -> bool {
        self@.len() > 0 && self@.no_duplicates()
    }

    /// Build a palette from operation names. Duplicates are dropped (the first stays); order is
    /// preserved.
    pub fn new(ops: Vec<String>) -> (r: Result<Self, Error>)
        ensures
            match r {
                Ok(p) => ops@.len() > 0 && p@ == first_of_each(models::of(ops@)),
                Err(e) => ops@.len() == 0 && (e matches Error::InvalidDistribution { name, reason }
                    && name@ == "op_palette"@ && reason is NeedsOperation),
            },
    {
        let ghost all = models::of(ops@);
        let mut seen: Vec<String> = Vec::new();
        let mut i: usize = 0;
        proof {
            assert(all.take(0).len() == 0);
            assert(models::of(seen@) =~= first_of_each(all.take(0)));
        }
        while i < ops.len()
            invariant
                i <= ops@.len(),
                all == models::of(ops@),
                models::of(seen@) == first_of_each(all.take(i as int)),
                i > 0 ==> seen@.len() > 0,
            decreases ops@.len() - i,
        {
            let ghost before = seen@;
            proof {
                assert(all.take(i + 1).drop_last() =~= all.take(i as int));
                assert(all.take(i + 1).last() == ops@[i as int]@);
            }
            if !contains_text(&seen, ops[i].as_str()) {
                seen.push(ops[i].clone());
                proof {
                    assert(models::of(seen@) =~= models::of(before).push(ops@[i as int]@));
                }
            } else {
                proof {
                    assert(models::of(seen@).contains(ops@[i as int]@));
                    assert(models::of(seen@).len() > 0);
                }
            }
            i += 1;
        }
        if seen.len() == 0 {
            return Err(invalid("op_palette", Reason::NeedsOperation));
        }
        proof {
            assert(all.take(i as int) =~= all);
            first_of_each_holds(all, all[0]);
        }
        Ok(OpPalette { ops: seen })
    }

    /// The operation names, in declaration order.
    pub fn ops(&self) -> (r: &Vec<String>)
        ensures
            models::of(r@) == self@,
            r@.len() > 0,
            self@.no_duplicates(),
    {
        proof {
            use_type_invariant(self);
            assert(self@.len() == self.ops@.len());
        }
        &self.ops
    }
}

/// One decoded cell of an architecture.
#[derive(Debug)]
pub struct Layer {
    /// The chosen operation name.
    pub op: String,
    /// The cell's channel width.
    pub width: usize,
    /// Whether this cell receives a skip connection from the previous cell.
    pub skip_from_prev: bool,
}

/// What a [`Layer`] stands for in contracts.
pub struct LayerModel {
    /// The operation.
    pub op: Seq<char>,
    /// The channel width.
    pub width: usize,
    /// Whether it receives a skip connection.
    pub skip: bool,
}

impl View for Layer {
    type V = LayerModel;

    open spec fn view(&self) -> LayerModel {
        LayerModel { op: self.op@, width: self.width, skip: self.skip_from_prev }
    }
}

impl Clone for Layer {
    fn clone(&self) -> (l: Self)
        ensures
            l@ == self@,
    {
        Layer { op: self.op.clone(), width: self.width, skip_from_prev: self.skip_from_prev }
    }
}

/// A decoded macro-architecture: cells from input to output.
#[derive(Debug)]
pub struct Architecture {
    /// Cells from input to output.
    pub layers: Vec<Layer>,
}

impl View for Architecture {
    type V = Seq<LayerModel>;

    open spec fn view(&self) -> Seq<LayerModel> {
        models::of(self.layers@)
    }
}

/// The text of a cell: its operation, its width behind an `x`, and whether it receives a skip
/// connection. A blank parts the width from an operation that does not end in a digit.
pub open spec fn layer_text(l: LayerModel) -> Seq<char> {
    l.op + (if text::digit_last(l.op) {
        "x"@
    } else {
        " x"@
    }) + text::decimal(l.width as nat) + if l.skip {
        "(+skip)"@
    } else {
        ""@
    }
}

/// The texts of cells, joined by arrows.
pub open spec fn described(layers: Seq<LayerModel>) -> Seq<char>
    decreases layers.len(),
{
    if layers.len() == 0 {
        ""@
    } else if layers.len() == 1 {
        layer_text(layers[0])
    } else {
        described(layers.drop_last()) + " -> "@ + layer_text(layers.last())
    }
}

impl Architecture {
    /// Number of cells.
    pub fn depth(&self) -> (n: usize)
        ensures
            n == self@.len(),
    {
        self.layers.len()
    }

    /// A short, stable, human-readable description for logs and provenance, e.g.
    /// `conv3x16 -> conv5x32(+skip) -> identity x16`.
    pub fn describe(&self) -> (s: String)
        ensures
            s@ == described(self@),
    {
        let mut out = "".to_owned();
        let ghost all = self@;
        let mut i: usize = 0;
        proof {
            assert(all.take(0).len() == 0);
        }
        while i < self.layers.len()
            invariant
                i <= self.layers@.len(),
                all == self@,
                out@ == described(all.take(i as int)),
            decreases self.layers@.len() - i,
        {
            let l = &self.layers[i];
            let mut part = join(
                l.op.as_str(),
                if ends_in_digit(l.op.as_str()) {
                    "x"
                } else {
                    " x"
                },
            );
            part = join(part.as_str(), decimal_text(l.width as u64).as_str());
            part = join(
                part.as_str(),
                if l.skip_from_prev {
                    "(+skip)"
                } else {
                    ""
                },
            );
            proof {
                assert(part@ == layer_text(all[i as int]));
                assert(all.take(i + 1).drop_last() =~= all.take(i as int));
                assert(all.take(i + 1).last() == all[i as int]);
            }
            if i == 0 {
                out = part;
                proof {
                    assert(all.take(1)[0] == all[0]);
                }
            } else {
                out = join(join(out.as_str(), " -> ").as_str(), part.as_str());
            }
            i += 1;
        }
        proof {
            assert(all.take(i as int) =~= all);
        }
        out
    }
}

impl Clone for Architecture {
    fn clone(&self) -> (a: Self)
        ensures
            a@ == self@,
    {
        let mut layers: Vec<Layer> = Vec::new();
        let mut i: usize = 0;
        while i < self.layers.len()
            invariant
                i <= self.layers@.len(),
                layers@.len() == i,
                forall|k: int| 0 <= k < i ==> (#[trigger] layers@[k])@ == self.layers@[k]@,
            decreases self.layers@.len() - i,
        {
            layers.push(self.layers[i].clone());
            i += 1;
        }
        let a = Architecture { layers };
        proof {
            assert(a@ =~= self@);
        }
        a
    }
}

/// A searchable macro-architecture: a variable-depth stack of cells drawn from a shared
/// [`OpPalette`], with per-cell width and skip choices.
#[derive(Debug)]
pub struct MacroSpace {
    palette: OpPalette,
    min_depth: usize,
    max_depth: usize,
    widths: Vec<usize>,
    allow_skip: bool,
}

/// What a [`MacroSpace`] stands for in contracts.
pub struct MacroModel {
    /// The candidate operations.
    pub ops: Seq<Seq<char>>,
    /// The least depth.
    pub min_depth: usize,
    /// The greatest depth.
    pub max_depth: usize,
    /// The candidate channel widths.
    pub widths: Seq<usize>,
    /// Whether cells may have skip connections.
    pub skips: bool,
}

impl View for MacroSpace {
    type V = MacroModel;

    closed spec fn view(&self) -> MacroModel {
        MacroModel {
            ops: self.palette@,
            min_depth: self.min_depth,
            max_depth: self.max_depth,
            widths: self.widths@,
            skips: self.allow_skip,
        }
    }
}

/// Whether numbers are strictly increasing.
pub open spec fn increasing(v: Seq<usize>) -> bool {
    forall|i: int, j: int| 0 <= i < j < v.len() ==> (#[trigger] v[i]) < (#[trigger] v[j])
}

impl MacroModel {
    /// Whether there is something to search: operations, widths in order, and a depth range.
    pub open spec fn well_formed(self) -> bool {
        &&& self.ops.len() > 0
        &&& self.ops.no_duplicates()
        &&& 1 <= self.min_depth <= self.max_depth
        &&& self.widths.len() > 0
        &&& increasing(self.widths)
        &&& forall|i: int| 0 <= i < self.widths.len() ==> (#[trigger] self.widths[i]) > 0
    }

    /// Whether cell `i` may be `l`.
    pub open spec fn admits(self, i: int, l: LayerModel) -> bool {
        &&& self.ops.contains(l.op)
        &&& self.widths.contains(l.width)
        &&& l.skip ==> self.skips && i > 0
    }

    /// Whether cells are an architecture of this space.
    pub open spec fn valid(self, cells: Seq<LayerModel>) -> bool {
        &&& self.min_depth <= cells.len() <= self.max_depth
        &&& forall|i: int| 0 <= i < cells.len() ==> self.admits(i, #[trigger] cells[i])
    }
}

/// The kinds of architecture mutations.
#[derive(Debug, Clone, Copy, PartialEq, Eq, Structural)]
pub enum Mutation {
    /// Choose a cell's operation anew.
    Op,
    /// Choose a cell's width anew.
    Width,
    /// Toggle a cell's skip connection.
    Skip,
    /// Add a cell at the end.
    Grow,
    /// Drop the last cell.
    Shrink,
}

impl MacroModel {
    /// The operation drawn at a position of the stream.
    pub open spec fn op_at(self, r: TrialRng) -> Seq<char> {
        self.ops[r.pick(self.ops.len() as u64) as int]
    }

    /// The position behind the draw of an operation.
    pub open spec fn past_op(self, r: TrialRng) -> TrialRng {
        r.past_pick(self.ops.len() as u64)
    }

    /// The width drawn at a position of the stream.
    pub open spec fn width_at(self, r: TrialRng) -> usize {
        self.widths[r.pick(self.widths.len() as u64) as int]
    }

    /// The position behind the draw of a width.
    pub open spec fn past_width(self, r: TrialRng) -> TrialRng {
        r.past_pick(self.widths.len() as u64)
    }

    /// The cell drawn at a position of the stream, with a skip connection only if one is
    /// `possible`, and the position behind it.
    pub open spec fn cell_at(self, possible: bool, r: TrialRng) -> (LayerModel, TrialRng) {
        let (op, r1) = (self.op_at(r), self.past_op(r));
        let (width, r2) = (self.width_at(r1), self.past_width(r1));
        if possible {
            (LayerModel { op, width, skip: r2.flip() }, r2.past_flip())
        } else {
            (LayerModel { op, width, skip: false }, r2)
        }
    }

    /// The first `n` cells drawn one after the other, and the position behind them.
    pub open spec fn cells_at(self, n: nat, r: TrialRng) -> (Seq<LayerModel>, TrialRng)
        decreases n,
    {
        if n == 0 {
            (Seq::empty(), r)
        } else {
            let (cells, r1) = self.cells_at((n - 1) as nat, r);
            let (cell, r2) = self.cell_at(self.skips && n > 1, r1);
            (cells.push(cell), r2)
        }
    }

    /// The architecture drawn at a position of the stream, and the position behind it.
    pub open spec fn sampled(self, r: TrialRng) -> (Seq<LayerModel>, TrialRng) {
        let range = (self.max_depth - self.min_depth + 1) as u64;
        self.cells_at((self.min_depth + r.pick(range)) as nat, r.past_pick(range))
    }

    /// The mutations open to an architecture of `n` cells.
    pub open spec fn mutations(self, n: nat) -> Seq<Mutation> {
        let a = seq![Mutation::Op, Mutation::Width];
        let b = if self.skips && n > 1 {
            a.push(Mutation::Skip)
        } else {
            a
        };
        let c = if n < self.max_depth {
            b.push(Mutation::Grow)
        } else {
            b
        };
        if n > self.min_depth {
            c.push(Mutation::Shrink)
        } else {
            c
        }
    }

    /// The architecture that a mutation makes of `cells`, and the position of the stream behind
    /// it.
    pub open spec fn edited(self, kind: Mutation, cells: Seq<LayerModel>, r: TrialRng) -> (
        Seq<LayerModel>,
        TrialRng,
    ) {
        let n = cells.len() as u64;
        match kind {
            Mutation::Op => {
                let (i, r1) = (r.pick(n) as int, r.past_pick(n));
                let l = LayerModel { op: self.op_at(r1), ..cells[i] };
                (cells.update(i, l), self.past_op(r1))
            },
            Mutation::Width => {
                let (i, r1) = (r.pick(n) as int, r.past_pick(n));
                let l = LayerModel { width: self.width_at(r1), ..cells[i] };
                (cells.update(i, l), self.past_width(r1))
            },
            Mutation::Skip => {
                let m = (n - 1) as u64;
                let (i, r1) = (1 + r.pick(m), r.past_pick(m));
                let l = LayerModel { skip: !cells[i].skip, ..cells[i] };
                (cells.update(i, l), r1)
            },
            Mutation::Grow => {
                let (l, r1) = self.cell_at(self.skips, r);
                (cells.push(l), r1)
            },
            Mutation::Shrink => (cells.drop_last(), r),
        }
    }

    /// The architecture that a random mutation makes of `cells`, and the position of the stream
    /// behind it.
    pub open spec fn mutated(self, cells: Seq<LayerModel>, r: TrialRng) -> (
        Seq<LayerModel>,
        TrialRng,
    ) {
        let kinds = self.mutations(cells.len());
        let n = kinds.len() as u64;
        self.edited(kinds[r.pick(n) as int], cells, r.past_pick(n))
    }
}

/// The name of the operation parameter of cell `i`.
pub open spec fn op_name(i: nat) -> Seq<char> {
    "op"@ + text::decimal(i)
}

/// The name of the width parameter of cell `i`.
pub open spec fn width_name(i: nat) -> Seq<char> {
    "width"@ + text::decimal(i)
}

/// The name of the skip parameter of cell `i`.
pub open spec fn skip_name(i: nat) -> Seq<char> {
    "skip"@ + text::decimal(i)
}

impl MacroModel {
    /// The depth parameter.
    pub open spec fn depth_def(self) -> DefModel {
        DefModel {
            name: "depth"@,
            dist: DistModel::Int {
                low: self.min_depth as i64,
                high: self.max_depth as i64,
                log: false,
                step: 1,
            },
            condition: None,
        }
    }

    /// The condition of cell `i`: met by every depth that reaches it.
    pub open spec fn gate(self, i: nat) -> ConditionModel {
        ConditionModel {
            parent: "depth"@,
            equals: Seq::new(
                (self.max_depth - i) as nat,
                |k: int| ParamModel::Int((i + 1 + k) as i64),
            ),
        }
    }

    /// The operation parameter of cell `i`.
    pub open spec fn op_def(self, i: nat) -> DefModel {
        DefModel {
            name: op_name(i),
            dist: DistModel::Categorical { choices: self.ops },
            condition: Some(self.gate(i)),
        }
    }

    /// The width parameter of cell `i`.
    pub open spec fn width_def(self, i: nat) -> DefModel {
        DefModel {
            name: width_name(i),
            dist: DistModel::Categorical {
                choices: self.widths.map_values(|w: usize| text::decimal(w as nat)),
            },
            condition: Some(self.gate(i)),
        }
    }

    /// The skip parameter of cell `i`.
    pub open spec fn skip_def(self, i: nat) -> DefModel {
        DefModel { name: skip_name(i), dist: DistModel::Bool, condition: Some(self.gate(i)) }
    }

    /// The parameters of cell `i`. The first cell has no predecessor, so no skip parameter.
    pub open spec fn cell_defs(self, i: nat) -> Seq<DefModel> {
        if self.skips && i > 0 {
            seq![self.op_def(i), self.width_def(i), self.skip_def(i)]
        } else {
            seq![self.op_def(i), self.width_def(i)]
        }
    }

    /// The depth parameter and those of the first `n` cells.
    pub open spec fn encoded(self, n: nat) -> SpaceModel
        decreases n,
    {
        if n == 0 {
            seq![self.depth_def()]
        } else {
            self.encoded((n - 1) as nat) + self.cell_defs((n - 1) as nat)
        }
    }

    /// The depth that a depth parameter stands for.
    pub open spec fn depth_of(self, d: i64) -> nat {
        if d < 0 || d > self.max_depth {
            self.max_depth as nat
        } else if d < self.min_depth {
            self.min_depth as nat
        } else {
            d as nat
        }
    }

    /// The cell `i` that an assignment stands for, if it stands for one.
    pub open spec fn cell_of(self, a: Assignment, i: nat) -> Option<LayerModel> {
        match (text_in(a, op_name(i)), text_in(a, width_name(i))) {
            (Some(op), Some(w)) => match text::parsed(w) {
                Some(width) => if width <= usize::MAX {
                    Some(
                        LayerModel {
                            op,
                            width: width as usize,
                            skip: self.skips && i > 0 && a.contains_key(skip_name(i))
                                && a[skip_name(i)] == ParamModel::Bool(true),
                        },
                    )
                } else {
                    None
                },
                None => None,
            },
            _ => None,
        }
    }

    /// Whether `e` is the complaint about cell `i` of an assignment.
    pub open spec fn cell_fault(self, a: Assignment, i: nat, e: Error) -> bool {
        if text_in(a, op_name(i)) is None {
            lacks_text(a, op_name(i), e)
        } else if text_in(a, width_name(i)) is None {
            lacks_text(a, width_name(i), e)
        } else {
            e matches Error::Objective(m) && m@ == width_name(i) + " is not an integer"@
        }
    }

    /// Whether the first `n` cells of an assignment can be decoded.
    pub open spec fn decodable(self, a: Assignment, n: nat) -> bool {
        forall|i: nat| i < n ==> #[trigger] self.cell_of(a, i) is Some
    }

    /// The first `n` cells that an assignment stands for.
    pub open spec fn decoded(self, a: Assignment, n: nat) -> Seq<LayerModel> {
        Seq::new(n, |i: int| self.cell_of(a, i as nat)->0)
    }

    /// Whether `e` is the complaint about an assignment: its depth, or its first faulty cell.
    pub open spec fn fault(self, a: Assignment, e: Error) -> bool {
        if !a.contains_key("depth"@) {
            param::is_missing(e, "depth"@)
        } else {
            match a["depth"@] {
                ParamModel::Int(d) => exists|i: nat|
                    i < self.depth_of(d) && self.decodable(a, i) && self.cell_of(a, i) is None
                        && #[trigger] self.cell_fault(a, i, e),
                v => param::is_mismatch(e, "depth"@, param::kind_label(v), "int"@),
            }
        }
    }
}

/// The category that an assignment gives a parameter.
pub open spec fn text_in(a: Assignment, name: Seq<char>) -> Option<Seq<char>> {
    if a.contains_key(name) {
        match a[name] {
            ParamModel::Categorical(s) => Some(s),
            _ => None,
        }
    } else {
        None
    }
}

/// Whether `e` says that an assignment gives a parameter no category.
pub open spec fn lacks_text(a: Assignment, name: Seq<char>, e: Error) -> bool {
    if a.contains_key(name) {
        param::is_mismatch(e, name, param::kind_label(a[name]), "categorical"@)
    } else {
        param::is_missing(e, name)
    }
}

/// The candidate widths in order: positive, none twice.
fn tidy(widths: &Vec<usize>) -> (r: Vec<usize>)
    ensures
        increasing(r@),
        forall|w: usize| #[trigger] r@.contains(w) <==> w > 0 && widths@.contains(w),
{
    let mut out: Vec<usize> = Vec::new();
    let mut i: usize = 0;
    while i < widths.len()
        invariant
            i <= widths@.len(),
            increasing(out@),
            forall|w: usize| #[trigger]
                out@.contains(w) <==> w > 0 && widths@.take(i as int).contains(w),
        decreases widths@.len() - i,
    {
        let w = widths[i];
        let ghost before = out@;
        let mut at: usize = 0;
        while at < out.len() && out[at] < w
            invariant
                at <= out@.len(),
                forall|k: int| 0 <= k < at ==> (#[trigger] out@[k]) < w,
            decreases out@.len() - at,
        {
            at += 1;
        }
        if w > 0 && (at == out.len() || out[at] != w) {
            out.insert(at, w);
            proof {
                let after = before.insert(at as int, w);
                assert forall|a: int, b: int| 0 <= a < b < after.len() implies (
                #[trigger] after[a]) < (#[trigger] after[b]) by {
                    let x = if a < at {
                        a
                    } else {
                        a - 1
                    };
                    let y = if b < at {
                        b
                    } else {
                        b - 1
                    };
                    if a == at {
                        assert(before[at as int] <= before[y]);
                    } else if b == at {
                        assert(before[x] < w);
                    } else {
                        assert(before[x] < before[y]);
                    }
                }
            }
        }
        proof {
            let head = widths@.take(i as int);
            let more = widths@.take(i + 1);
            assert(more =~= head.push(w));
            assert forall|v: usize| #[trigger] out@.contains(v) <==> v > 0 && more.contains(v) by {
                assert(more.contains(v) <==> head.contains(v) || v == w) by {
                    if head.contains(v) {
                        assert(more[head.index_of(v)] == v);
                    }
                    if v == w {
                        assert(more[i as int] == v);
                    }
                    if more.contains(v) && v != w {
                        assert(head[more.index_of(v)] == v);
                    }
                }
                assert(before.contains(v) <==> v > 0 && head.contains(v));
                if out@.len() > before.len() {
                    if before.contains(v) {
                        let k = before.index_of(v);
                        assert(out@[if k < at {
                            k
                        } else {
                            k + 1
                        }] == v);
                    }
                    if v == w {
                        assert(out@[at as int] == v);
                    }
                    if out@.contains(v) && v != w {
                        let k = out@.index_of(v);
                        assert(before[if k < at {
                            k
                        } else {
                            k - 1
                        }] == v);
                    }
                } else if v == w && w > 0 {
                    assert(before[at as int] == w);
                }
            }
        }
        i += 1;
    }
    proof {
        assert(widths@.take(i as int) =~= widths@);
    }
    out
}

impl MacroSpace {
    #[verifier::type_invariant]
    spec fn searchable(self) -> bool {
        self@.well_formed()
    }

    /// A macro-space over `palette`, with depth in `[min_depth, max_depth]` and per-cell channel
    /// widths chosen from the positive ones of `widths`. Skip connections are enabled.
    pub fn new(palette: OpPalette, min_depth: usize, max_depth: usize, widths: Vec<usize>) -> (r:
        Result<Self, Error>)
        ensures
            r is Ok <==> exists|w: usize| w > 0 && #[trigger] widths@.contains(w),
            match r {
                Ok(s) => {
                    &&& s@.well_formed()
                    &&& s@.ops == palette@
                    &&& s@.min_depth == if min_depth < 1 {
                        1
                    } else {
                        min_depth
                    }
                    &&& s@.max_depth == if max_depth < s@.min_depth {
                        s@.min_depth
                    } else {
                        max_depth
                    }
                    &&& forall|w: usize| #[trigger]
                        s@.widths.contains(w) <==> w > 0 && widths@.contains(w)
                    &&& s@.skips
                },
                Err(e) => e matches Error::InvalidDistribution { name, reason } && name@
                    == "macro_space.widths"@ && reason is NeedsWidth,
            },
    {
        let min_depth: usize = if min_depth < 1 {
            1
        } else {
            min_depth
        };
        let max_depth: usize = if max_depth < min_depth {
            min_depth
        } else {
            max_depth
        };
        let kept = tidy(&widths);
        if kept.len() == 0 {
            proof {
                assert forall|w: usize| w > 0 implies !#[trigger] widths@.contains(w) by {
                    assert(!kept@.contains(w));
                }
            }
            return Err(invalid("macro_space.widths", Reason::NeedsWidth));
        }
        proof {
            use_type_invariant(&palette);
            assert forall|i: int| 0 <= i < kept@.len() implies (#[trigger] kept@[i]) > 0 by {
                assert(kept@.contains(kept@[i]));
            }
            assert(kept@.contains(kept@[0]));
        }
        Ok(MacroSpace { palette, min_depth, max_depth, widths: kept, allow_skip: true })
    }

    /// Disable skip connections.
    pub fn without_skips(self) -> (s: Self)
        ensures
            s@ == (MacroModel { skips: false, ..self@ }),
    {
        proof {
            use_type_invariant(&self);
        }
        MacroSpace {
            palette: self.palette,
            min_depth: self.min_depth,
            max_depth: self.max_depth,
            widths: self.widths,
            allow_skip: false,
        }
    }

    /// The shared operation palette.
    pub fn palette(&self) -> (p: &OpPalette)
        ensures
            p@ == self@.ops,
    {
        &self.palette
    }

    /// The inclusive depth bounds.
    pub fn depth_bounds(&self) -> (r: (usize, usize))
        ensures
            r == (self@.min_depth, self@.max_depth),
            1 <= r.0 <= r.1,
    {
        proof {
            use_type_invariant(self);
        }
        (self.min_depth, self.max_depth)
    }

    /// The candidate channel widths, in increasing order.
    pub fn widths(&self) -> (r: &Vec<usize>)
        ensures
            r@ == self@.widths,
            self@.well_formed(),
    {
        proof {
            use_type_invariant(self);
        }
        &self.widths
    }

    /// The candidate widths as texts.
    fn width_choices(&self) -> (r: Vec<String>)
        ensures
            models::of(r@) == self@.widths.map_values(|w: usize| text::decimal(w as nat)),
    {
        let mut out: Vec<String> = Vec::new();
        let mut i: usize = 0;
        while i < self.widths.len()
            invariant
                i <= self.widths@.len(),
                out@.len() == i,
                forall|k: int|
                    0 <= k < i ==> (#[trigger] out@[k])@ == text::decimal(self.widths@[k] as nat),
            decreases self.widths@.len() - i,
        {
            out.push(decimal_text(self.widths[i] as u64));
            i += 1;
        }
        proof {
            assert(models::of(out@) =~= self@.widths.map_values(
                |w: usize| text::decimal(w as nat),
            ));
        }
        out
    }

    /// The condition of cell `i`.
    fn gate(&self, i: usize) -> (c: Condition)
        requires
            i < self@.max_depth,
            self@.max_depth <= i64::MAX,
        ensures
            c@ == self@.gate(i as nat),
    {
        let mut depths: Vec<ParamValue> = Vec::new();
        let mut d: usize = i;
        while d < self.max_depth
            invariant
                i <= d <= self.max_depth,
                self.max_depth <= i64::MAX,
                depths@.len() == d - i,
                forall|k: int|
                    0 <= k < d - i ==> (#[trigger] depths@[k])@ == ParamModel::Int(
                        (i + 1 + k) as i64,
                    ),
            decreases self.max_depth - d,
        {
            d += 1;
            depths.push(ParamValue::Int(d as i64));
        }
        let c = Condition::when_in("depth", depths);
        proof {
            assert(c@.equals =~= self@.gate(i as nat).equals);
        }
        c
    }

    /// Encode this macro-architecture as a conditional [`SearchSpace`]: a `depth` integer, then
    /// per-cell `op{i}`, `width{i}` and `skip{i}` parameters, each active only when `depth`
    /// reaches cell `i`.
    pub fn to_search_space(&self) -> (s: SearchSpace)
        requires
            self@.max_depth <= i64::MAX,
        ensures
            s@ == self@.encoded(self@.max_depth as nat),
    {
        proof {
            use_type_invariant(self);
        }
        let mut space = SearchSpace::new().add(
            "depth",
            Distribution::integer(self.min_depth as i64, self.max_depth as i64),
        );
        proof {
            assert(space@ =~= self@.encoded(0));
        }
        let mut i: usize = 0;
        while i < self.max_depth
            invariant
                i <= self.max_depth,
                self.max_depth <= i64::MAX,
                space@ == self@.encoded(i as nat),
            decreases self.max_depth - i,
        {
            let ghost before = space@;
            let n = decimal_text(i as u64);
            space = space.add_conditional(
                join("op", n.as_str()).as_str(),
                Distribution::categorical(clone_texts(self.palette.ops())),
                self.gate(i),
            );
            space = space.add_conditional(
                join("width", n.as_str()).as_str(),
                Distribution::categorical(self.width_choices()),
                self.gate(i),
            );
            if self.allow_skip && i > 0 {
                space = space.add_conditional(
                    join("skip", n.as_str()).as_str(),
                    Distribution::boolean(),
                    self.gate(i),
                );
            }
            proof {
                assert(space@ =~= before + self@.cell_defs(i as nat));
            }
            i += 1;
        }
        space
    }

    /// Decode cell `i` of an assignment.
    fn decode_cell(&self, params: &ParamSet, i: usize) -> (r: Result<Layer, Error>)
        ensures
            match r {
                Ok(l) => self@.cell_of(params@, i as nat) == Some(l@),
                Err(e) => self@.cell_of(params@, i as nat) is None && self@.cell_fault(
                    params@,
                    i as nat,
                    e,
                ),
            },
    {
        let n = decimal_text(i as u64);
        let op = match params.categorical(join("op", n.as_str()).as_str()) {
            Ok(s) => s.to_owned(),
            Err(e) => {
                return Err(e);
            },
        };
        let name = join("width", n.as_str());
        let width = match params.categorical(name.as_str()) {
            Ok(s) => match parse_decimal(s) {
                Some(w) => w,
                None => {
                    return Err(Error::Objective(join(name.as_str(), " is not an integer")));
                },
            },
            Err(e) => {
                return Err(e);
            },
        };
        let skip_from_prev = if self.allow_skip && i > 0 {
            match params.boolean(join("skip", n.as_str()).as_str()) {
                Ok(b) => b,
                Err(_) => false,
            }
        } else {
            false
        };
        Ok(Layer { op, width, skip_from_prev })
    }

    /// Decode a sampled [`ParamSet`] into a concrete [`Architecture`].
    pub fn decode(&self, params: &ParamSet) -> (r: Result<Architecture, Error>)
        ensures
            match r {
                Ok(arch) => {
                    &&& params@.contains_key("depth"@)
                    &&& params@["depth"@] matches ParamModel::Int(d) && self@.decodable(
                        params@,
                        self@.depth_of(d),
                    ) && arch@ == self@.decoded(params@, self@.depth_of(d))
                },
                Err(e) => self@.fault(params@, e),
            },
    {
        proof {
            use_type_invariant(self);
        }
        let asked = match params.integer("depth") {
            Ok(d) => d,
            Err(e) => {
                return Err(e);
            },
        };
        let depth: usize = if asked < 0 || asked as u64 > self.max_depth as u64 {
            self.max_depth
        } else if (asked as u64) < self.min_depth as u64 {
            self.min_depth
        } else {
            asked as usize
        };
        let ghost a = params@;
        let mut layers: Vec<Layer> = Vec::new();
        let mut i: usize = 0;
        while i < depth
            invariant
                i <= depth,
                a == params@,
                a.contains_key("depth"@),
                a["depth"@] == ParamModel::Int(asked),
                depth == self@.depth_of(asked),
                layers@.len() == i,
                self@.decodable(a, i as nat),
                forall|k: int|
                    0 <= k < i ==> (#[trigger] layers@[k])@ == self@.cell_of(a, k as nat)->0,
            decreases depth - i,
        {
            match self.decode_cell(params, i) {
                Ok(l) => {
                    layers.push(l);
                },
                Err(e) => {
                    proof {
                        assert(self@.cell_fault(a, i as nat, e));
                    }
                    return Err(e);
                },
            }
            i += 1;
        }
        let arch = Architecture { layers };
        proof {
            assert(arch@ =~= self@.decoded(a, depth as nat));
        }
        Ok(arch)
    }

    /// Draw a cell.
    fn draw_cell(&self, possible: bool, rng: &mut TrialRng) -> (l: Layer)
        ensures
            (l@, *final(rng)) == self@.cell_at(possible, *old(rng)),
            self@.ops.contains(l.op@),
            self@.widths.contains(l.width),
            l.skip_from_prev ==> possible,
    {
        proof {
            use_type_invariant(self);
            assert(self@.ops.len() == self.palette.ops@.len());
        }
        let ops = self.palette.ops();
        let k = rng.below(ops.len() as u64) as usize;
        let op = ops[k].clone();
        proof {
            assert(self@.ops[k as int] == op@);
        }
        let w = rng.below(self.widths.len() as u64) as usize;
        let width = self.widths[w];
        proof {
            assert(self@.widths[w as int] == width);
        }
        let skip_from_prev = possible && rng.coin();
        Layer { op, width, skip_from_prev }
    }

    /// A uniformly random valid architecture.
    pub fn sample(&self, rng: &mut TrialRng) -> (arch: Architecture)
        ensures
            (arch@, *final(rng)) == self@.sampled(*old(rng)),
            self@.valid(arch@),
    {
        proof {
            use_type_invariant(self);
        }
        let range = (self.max_depth - self.min_depth) as u64 + 1;
        let depth = self.min_depth + rng.below(range) as usize;
        let ghost start = *rng;
        let mut layers: Vec<Layer> = Vec::new();
        let mut i: usize = 0;
        proof {
            assert(models::of(layers@) =~= self@.cells_at(0, start).0);
        }
        while i < depth
            invariant
                i <= depth,
                layers@.len() == i,
                (models::of(layers@), *rng) == self@.cells_at(i as nat, start),
                forall|k: int| 0 <= k < i ==> self@.admits(k, (#[trigger] layers@[k])@),
            decreases depth - i,
        {
            let ghost before = layers@;
            let l = self.draw_cell(self.allow_skip && i > 0, rng);
            layers.push(l);
            proof {
                assert(models::of(layers@) =~= models::of(before).push(l@));
            }
            i += 1;
        }
        let arch = Architecture { layers };
        proof {
            assert forall|k: int| 0 <= k < arch@.len() implies self@.admits(
                k,
                #[trigger] arch@[k],
            ) by {
                assert(self@.admits(k, layers@[k]@));
            }
        }
        arch
    }

    /// The mutations open to an architecture of `n` cells.
    fn mutations(&self, n: usize) -> (kinds: Vec<Mutation>)
        ensures
            kinds@ == self@.mutations(n as nat),
            kinds@.len() > 0,
    {
        let mut kinds: Vec<Mutation> = Vec::new();
        kinds.push(Mutation::Op);
        kinds.push(Mutation::Width);
        if self.allow_skip && n > 1 {
            kinds.push(Mutation::Skip);
        }
        if n < self.max_depth {
            kinds.push(Mutation::Grow);
        }
        if n > self.min_depth {
            kinds.push(Mutation::Shrink);
        }
        proof {
            assert(kinds@ =~= self@.mutations(n as nat));
        }
        kinds
    }

    /// Apply exactly one architecture-level mutation: choose a cell's operation or width anew,
    /// toggle a skip connection, or grow or shrink the depth by one cell within its bounds. A
    /// valid architecture stays valid.
    pub fn mutate(&self, arch: &Architecture, rng: &mut TrialRng) -> (next: Architecture)
        requires
            arch@.len() > 0,
        ensures
            (next@, *final(rng)) == self@.mutated(arch@, *old(rng)),
            self@.valid(arch@) ==> self@.valid(next@),
            one_edit(arch@, next@),
    {
        proof {
            use_type_invariant(self);
            assert(self@.ops.len() == self.palette.ops@.len());
        }
        let mut next = arch.clone();
        let n = next.layers.len();
        let kinds = self.mutations(n);
        let which = rng.below(kinds.len() as u64) as usize;
        let kind = kinds[which];
        let ghost before = arch@;
        let ghost r = *rng;
        proof {
            assert(next@.len() == next.layers@.len());
            assert(kind == self@.mutations(n as nat)[which as int]);
        }
        match kind {
            Mutation::Op => {
                let i = rng.below(n as u64) as usize;
                let ops = self.palette.ops();
                let k = rng.below(ops.len() as u64) as usize;
                next.layers[i].op = ops[k].clone();
                proof {
                    let l = LayerModel { op: self@.ops[k as int], ..before[i as int] };
                    assert(self@.ops[k as int] == ops@[k as int]@);
                    assert(next@ =~= before.update(i as int, l));
                    assert(one_property(before[i as int], l));
                }
            },
            Mutation::Width => {
                let i = rng.below(n as u64) as usize;
                let k = rng.below(self.widths.len() as u64) as usize;
                next.layers[i].width = self.widths[k];
                proof {
                    let l = LayerModel { width: self@.widths[k as int], ..before[i as int] };
                    assert(next@ =~= before.update(i as int, l));
                    assert(one_property(before[i as int], l));
                }
            },
            Mutation::Skip => {
                proof {
                    kinds_are_open(self@, n as nat, which as int);
                }
                let i = 1 + rng.below(n as u64 - 1) as usize;
                let flipped = !next.layers[i].skip_from_prev;
                next.layers[i].skip_from_prev = flipped;
                proof {
                    let l = LayerModel { skip: !before[i as int].skip, ..before[i as int] };
                    assert(next@ =~= before.update(i as int, l));
                    assert(one_property(before[i as int], l));
                }
            },
            Mutation::Grow => {
                let l = self.draw_cell(self.allow_skip, rng);
                next.layers.push(l);
                proof {
                    assert(next@ =~= before.push(l@));
                }
            },
            Mutation::Shrink => {
                let _ = next.layers.pop();
                proof {
                    assert(next@ =~= before.drop_last());
                }
            },
        }
        proof {
            if self@.valid(before) {
                kinds_are_open(self@, n as nat, which as int);
                edit_stays_valid(self@, kind, before, r);
            }
        }
        next
    }
}

/// Every mutation on the list can be applied.
proof fn kinds_are_open(ms: MacroModel, n: nat, k: int)
    requires
        0 <= k < ms.mutations(n).len(),
    ensures
        ms.mutations(n)[k] is Skip ==> ms.skips && n > 1,
        ms.mutations(n)[k] is Grow ==> n < ms.max_depth,
        ms.mutations(n)[k] is Shrink ==> n > ms.min_depth,
{
}

proof fn edit_stays_valid(ms: MacroModel, kind: Mutation, cells: Seq<LayerModel>, r: TrialRng)
    requires
        ms.well_formed(),
        ms.valid(cells),
        cells.len() > 0,
        cells.len() <= u64::MAX,
        kind is Skip ==> ms.skips && cells.len() > 1,
        kind is Grow ==> cells.len() < ms.max_depth,
        kind is Shrink ==> cells.len() > ms.min_depth,
        kind is Grow ==> ms.ops.contains(ms.cell_at(ms.skips, r).0.op) && ms.widths.contains(
            ms.cell_at(ms.skips, r).0.width,
        ),
        kind is Op ==> 0 <= r.pick(cells.len() as u64) < cells.len() && ms.ops.contains(
            ms.op_at(r.past_pick(cells.len() as u64)),
        ),
        kind is Width ==> 0 <= r.pick(cells.len() as u64) < cells.len() && ms.widths.contains(
            ms.width_at(r.past_pick(cells.len() as u64)),
        ),
        kind is Skip ==> 0 <= r.pick((cells.len() - 1) as u64) < cells.len() - 1,
    ensures
        ms.valid(ms.edited(kind, cells, r).0),
{
    let after = ms.edited(kind, cells, r).0;
    assert forall|i: int| 0 <= i < after.len() implies ms.admits(i, #[trigger] after[i]) by {
        if i < cells.len() {
            assert(ms.admits(i, cells[i]));
        }
    }
}

/// Whether two stacks of cells differ by one edit: one property of one cell, or one cell more
/// or less at the end.
pub open spec fn one_edit(a: Seq<LayerModel>, b: Seq<LayerModel>) -> bool {
    ||| exists|i: int, l: LayerModel|
        0 <= i < a.len() && b == #[trigger] a.update(i, l) && one_property(a[i], l)
    ||| exists|l: LayerModel| b == #[trigger] a.push(l)
    ||| a.len() > 0 && b == a.drop_last()
}

/// Whether two cells differ in one property at most.
pub open spec fn one_property(a: LayerModel, b: LayerModel) -> bool {
    ||| a.width == b.width && a.skip == b.skip
    ||| a.op == b.op && a.skip == b.skip
    ||| a.op == b.op && a.width == b.width
}

/// A mutation is one edit.
pub proof fn law_mutation_is_one_edit(
    ms: MacroModel,
    kind: Mutation,
    cells: Seq<LayerModel>,
    r: TrialRng,
)
    requires
        0 < cells.len() <= u64::MAX,
        kind is Op || kind is Width ==> r.pick(cells.len() as u64) < cells.len(),
        kind is Skip ==> cells.len() > 1 && r.pick((cells.len() - 1) as u64) < cells.len() - 1,
    ensures
        one_edit(cells, ms.edited(kind, cells, r).0),
{
    let after = ms.edited(kind, cells, r).0;
    match kind {
        Mutation::Op => {
            let i = r.pick(cells.len() as u64) as int;
            assert(after =~= cells.update(i, after[i]));
            assert(one_property(cells[i], after[i]));
        },
        Mutation::Width => {
            let i = r.pick(cells.len() as u64) as int;
            assert(after =~= cells.update(i, after[i]));
            assert(one_property(cells[i], after[i]));
        },
        Mutation::Skip => {
            let i = 1 + r.pick((cells.len() - 1) as u64);
            assert(after =~= cells.update(i, after[i]));
            assert(one_property(cells[i], after[i]));
        },
        Mutation::Grow => {
            assert(after == cells.push(ms.cell_at(ms.skips, r).0));
        },
        Mutation::Shrink => {},
    }
}

/// The encoding declares the parameters of each of its cells.
proof fn encoding_has_cell(ms: MacroModel, n: nat, i: nat)
    requires
        i < n,
    ensures
        ms.encoded(n).contains(ms.op_def(i)),
        ms.encoded(n).contains(ms.width_def(i)),
        ms.encoded(n).contains(ms.depth_def()),
        ms.skips && i > 0 ==> ms.encoded(n).contains(ms.skip_def(i)),
    decreases n,
{
    let m = (n - 1) as nat;
    let (rest, cell, all) = (ms.encoded(m), ms.cell_defs(m), ms.encoded(n));
    if i < m {
        encoding_has_cell(ms, m, i);
        contains_left(rest, cell, ms.op_def(i));
        contains_left(rest, cell, ms.width_def(i));
        contains_left(rest, cell, ms.depth_def());
        if ms.skips && i > 0 {
            contains_left(rest, cell, ms.skip_def(i));
        }
    } else {
        assert(all[rest.len() as int] == cell[0]);
        assert(all[rest.len() as int + 1] == cell[1]);
        if ms.skips && i > 0 {
            assert(all[rest.len() as int + 2] == cell[2]);
        }
        if m == 0 {
            assert(rest[0] == ms.depth_def());
            assert(rest.contains(ms.depth_def()));
        } else {
            encoding_has_cell(ms, m, 0);
        }
        contains_left(rest, cell, ms.depth_def());
    }
}

proof fn contains_left(a: Seq<DefModel>, b: Seq<DefModel>, x: DefModel)
    requires
        a.contains(x),
    ensures
        (a + b).contains(x),
{
    let i = a.index_of(x);
    assert((a + b)[i] == x);
}

/// Every legal assignment of the encoding decodes to a valid architecture.
pub proof fn law_legal_assignments_decode(ms: MacroModel, a: Assignment)
    requires
        ms.well_formed(),
        ms.max_depth <= i64::MAX,
        space::legal(ms.encoded(ms.max_depth as nat), a),
    ensures
        a.contains_key("depth"@),
        a["depth"@] matches ParamModel::Int(d) && ms.decodable(a, ms.depth_of(d)) && ms.valid(
            ms.decoded(a, ms.depth_of(d)),
        ),
{
    let defs = ms.encoded(ms.max_depth as nat);
    encoding_has_cell(ms, ms.max_depth as nat, 0);
    let at = defs.index_of(ms.depth_def());
    assert(defs[at].active(a));
    let v = a["depth"@];
    assert(ms.depth_def().dist.fits(v));
    let d = v->Int_0;
    let n = ms.depth_of(d);
    assert forall|i: nat| i < n implies #[trigger] ms.cell_of(a, i) is Some && ms.admits(
        i as int,
        ms.cell_of(a, i)->0,
    ) by {
        cell_is_decodable(ms, a, d, i);
    }
    assert forall|i: int| 0 <= i < n implies ms.admits(i, #[trigger] ms.decoded(a, n)[i]) by {
        assert(ms.cell_of(a, i as nat) is Some);
    }
}

proof fn cell_is_decodable(ms: MacroModel, a: Assignment, d: i64, i: nat)
    requires
        ms.well_formed(),
        ms.max_depth <= i64::MAX,
        space::legal(ms.encoded(ms.max_depth as nat), a),
        a.contains_key("depth"@),
        a["depth"@] == ParamModel::Int(d),
        ms.min_depth <= d <= ms.max_depth,
        i < d,
    ensures
        ms.cell_of(a, i) is Some,
        ms.admits(i as int, ms.cell_of(a, i)->0),
{
    let defs = ms.encoded(ms.max_depth as nat);
    encoding_has_cell(ms, ms.max_depth as nat, i);
    let gate = ms.gate(i);
    assert(gate.satisfied(a)) by {
        let k = d - i - 1;
        assert(gate.equals[k] == ParamModel::Int(d));
        assert(param::equal_values(gate.equals[k], a["depth"@]));
    }
    let o = defs.index_of(ms.op_def(i));
    assert(defs[o].active(a));
    assert(ms.op_def(i).dist.fits(a[op_name(i)]));
    let w = defs.index_of(ms.width_def(i));
    assert(defs[w].active(a));
    assert(ms.width_def(i).dist.fits(a[width_name(i)]));
    let choices = ms.widths.map_values(|w: usize| text::decimal(w as nat));
    let chosen = a[width_name(i)]->Categorical_0;
    assert(choices.contains(chosen));
    let x = choices.index_of(chosen);
    text::law_decimal_reads_back(ms.widths[x] as nat);
    assert(ms.widths.contains(ms.widths[x]));
}

/// Whether a name belongs to the depth or to one of the first `n` cells.
spec fn cell_named(n: nat, name: Seq<char>) -> bool {
    name == "depth"@ || exists|i: nat| i < n && #[trigger] named_by(i, name)
}

/// Whether a name belongs to cell `i`.
spec fn named_by(i: nat, name: Seq<char>) -> bool {
    name == op_name(i) || name == width_name(i) || name == skip_name(i)
}

proof fn names_differ(i: nat, j: nat)
    ensures
        op_name(i) != width_name(j),
        op_name(i) != skip_name(j),
        width_name(i) != skip_name(j),
        op_name(i) != "depth"@,
        width_name(i) != "depth"@,
        skip_name(i) != "depth"@,
        i != j ==> op_name(i) != op_name(j) && width_name(i) != width_name(j) && skip_name(i)
            != skip_name(j),
{
    reveal_strlit("op");
    reveal_strlit("width");
    reveal_strlit("skip");
    reveal_strlit("depth");
    assert(op_name(i)[0] == 'o' && width_name(j)[0] == 'w' && width_name(i)[0] == 'w'
        && skip_name(j)[0] == 's' && skip_name(i)[0] == 's' && "depth"@[0] == 'd');
    if i != j {
        if op_name(i) == op_name(j) {
            assert(op_name(i).skip(2) =~= text::decimal(i));
            assert(op_name(j).skip(2) =~= text::decimal(j));
            text::decimal_is_injective(i, j);
        }
        if width_name(i) == width_name(j) {
            assert(width_name(i).skip(5) =~= text::decimal(i));
            assert(width_name(j).skip(5) =~= text::decimal(j));
            text::decimal_is_injective(i, j);
        }
        if skip_name(i) == skip_name(j) {
            assert(skip_name(i).skip(4) =~= text::decimal(i));
            assert(skip_name(j).skip(4) =~= text::decimal(j));
            text::decimal_is_injective(i, j);
        }
    }
}

proof fn encoding_names(ms: MacroModel, n: nat)
    requires
        ms.well_formed(),
        ms.max_depth <= i64::MAX,
        n <= ms.max_depth,
    ensures
        forall|k: int|
            0 <= k < ms.encoded(n).len() ==> cell_named(n, (#[trigger] ms.encoded(n)[k]).name),
        ms.encoded(n).len() > 0,
        ms.encoded(n)[0] == ms.depth_def(),
        space::space_ordered(ms.encoded(n)),
        space::drawable_space(ms.encoded(n)),
    decreases n,
{
    let all = ms.encoded(n);
    if n == 0 {
        assert(space::def_ordered(all, 0));
    } else {
        let m = (n - 1) as nat;
        encoding_names(ms, m);
        let (rest, cell) = (ms.encoded(m), ms.cell_defs(m));
        assert forall|k: int| 0 <= k < all.len() implies cell_named(
            n,
            (#[trigger] all[k]).name,
        ) by {
            if k < rest.len() {
                assert(all[k] == rest[k]);
                assert(cell_named(m, rest[k].name));
                if rest[k].name != "depth"@ {
                    let i = choose|i: nat| i < m && #[trigger] named_by(i, rest[k].name);
                    assert(named_by(i, all[k].name));
                }
            } else {
                assert(all[k] == cell[k - rest.len()]);
                assert(named_by(m, all[k].name));
            }
        }
        assert forall|k: int| 0 <= k < all.len() implies #[trigger] space::def_ordered(
            all,
            k,
        ) by {
            if k < rest.len() {
                assert(space::def_ordered(rest, k));
                assert(all[k] == rest[k]);
                ordered_prefix(rest, cell, k);
            } else {
                let x = k - rest.len();
                assert(all[k] == cell[x]);
                assert(all[0].name == "depth"@);
                assert forall|j: int| 0 <= j < k implies (#[trigger] all[j]).name
                    != all[k].name by {
                    if j < rest.len() {
                        assert(all[j] == rest[j]);
                        assert(cell_named(m, rest[j].name));
                        names_differ(m, m);
                        if rest[j].name != "depth"@ {
                            let i = choose|i: nat| i < m && #[trigger] named_by(i, rest[j].name);
                            names_differ(m, i);
                            names_differ(i, m);
                        }
                    } else {
                        assert(all[j] == cell[j - rest.len()]);
                        names_differ(m, m);
                    }
                }
            }
        }
        assert forall|k: int| 0 <= k < all.len() implies (
        #[trigger] all[k]).dist.drawable() by {
            if k < rest.len() {
                assert(all[k] == rest[k]);
            } else {
                assert(all[k] == cell[k - rest.len()]);
            }
        }
    }
}

proof fn ordered_prefix(rest: Seq<DefModel>, cell: Seq<DefModel>, k: int)
    requires
        0 <= k < rest.len(),
        space::def_ordered(rest, k),
    ensures
        space::def_ordered(rest + cell, k),
{
    let all = rest + cell;
    if space::declared_before(all, k, all[k].name) {
        let j = choose|j: int| 0 <= j < k && (#[trigger] all[j]).name == all[k].name;
        assert(rest[j].name == rest[k].name);
    }
    if let Some(c) = rest[k].condition {
        let j = choose|j: int| 0 <= j < k && (#[trigger] rest[j]).name == c.parent;
        assert(all[j].name == c.parent);
    }
}

/// The encoding can be walked and drawn from: names are unique, every gate comes behind its
/// parent, and every distribution can be drawn from.
pub proof fn law_encoding_can_be_searched(ms: MacroModel)
    requires
        ms.well_formed(),
        ms.max_depth <= i64::MAX,
    ensures
        space::space_ordered(ms.encoded(ms.max_depth as nat)),
        space::drawable_space(ms.encoded(ms.max_depth as nat)),
{
    encoding_names(ms, ms.max_depth as nat);
}

/// Whether a cell was drawn from the whole palette: its operation and its width are picked from
/// all of them, and a coin decides on a skip connection where one is possible.
pub open spec fn is_drawn_cell(m: MacroModel, possible: bool, l: LayerModel) -> bool {
    exists|a: TrialRng, b: TrialRng, c: TrialRng|
        l.op == m.ops[#[trigger] a.pick(m.ops.len() as u64) as int] && l.width
            == m.widths[#[trigger] b.pick(m.widths.len() as u64) as int] && l.skip == (possible
            && #[trigger] c.flip())
}

proof fn cells_are_drawn(m: MacroModel, n: nat, r: TrialRng, i: int)
    ensures
        m.cells_at(n, r).0.len() == n,
        0 <= i < n ==> is_drawn_cell(m, m.skips && i > 0, m.cells_at(n, r).0[i]),
    decreases n,
{
    if n > 0 {
        cells_are_drawn(m, (n - 1) as nat, r, i);
        let r1 = m.cells_at((n - 1) as nat, r).1;
        let (a, b) = (r1, m.past_op(r1));
        let c = m.past_width(b);
        let cell = m.cell_at(m.skips && n > 1, r1).0;
        assert(cell.op == m.ops[a.pick(m.ops.len() as u64) as int] && cell.width
            == m.widths[b.pick(m.widths.len() as u64) as int] && cell.skip == ((m.skips && n > 1)
            && c.flip()));
    }
}

/// Architectures are drawn from the whole space: the depth is picked from all depths that there
/// may be, and each cell from all operations and widths. The first cell has nothing to skip.
pub proof fn law_architectures_are_drawn_from_the_whole_space(m: MacroModel, r: TrialRng, i: int)
    requires
        m.min_depth <= m.max_depth,
        0 <= i < m.sampled(r).0.len(),
    ensures
        m.sampled(r).0.len() == m.min_depth + r.pick((m.max_depth - m.min_depth + 1) as u64),
        is_drawn_cell(m, m.skips && i > 0, m.sampled(r).0[i]),
{
    let range = (m.max_depth - m.min_depth + 1) as u64;
    let n = (m.min_depth + r.pick(range)) as nat;
    cells_are_drawn(m, n, r.past_pick(range), i);
}

/// What a mutation may do depends on what the architecture has room for: operations and widths may
/// always change, a skip connection where cells may have one, and cells may come and go within the
/// depths that there may be.
pub proof fn law_mutations_are_those_with_room(m: MacroModel, n: nat)
    ensures
        m.mutations(n).contains(Mutation::Op),
        m.mutations(n).contains(Mutation::Width),
        m.mutations(n).contains(Mutation::Skip) <==> m.skips && n > 1,
        m.mutations(n).contains(Mutation::Grow) <==> n < m.max_depth,
        m.mutations(n).contains(Mutation::Shrink) <==> n > m.min_depth,
{
    let kinds = m.mutations(n);
    assert(kinds[0] == Mutation::Op && kinds[1] == Mutation::Width);
    if m.skips && n > 1 {
        assert(kinds[2] == Mutation::Skip);
    }
    if n > m.min_depth {
        assert(kinds[kinds.len() - 1] == Mutation::Shrink);
    }
    if n < m.max_depth {
        let at = if m.skips && n > 1 {
            3int
        } else {
            2
        };
        assert(kinds[at] == Mutation::Grow);
    }
}

/// A mutation does what its kind says: it grows by one cell at the end, drops the last one, or
/// changes one property of one cell and leaves all other cells as they are.
pub proof fn law_mutations_do_what_they_say(
    m: MacroModel,
    kind: Mutation,
    cells: Seq<LayerModel>,
    r: TrialRng,
    i: int,
)
    requires
        cells.len() > 1,
        cells.len() <= u64::MAX,
        0 <= i < cells.len(),
        r.pick(cells.len() as u64) < cells.len(),
        r.pick((cells.len() - 1) as u64) < cells.len() - 1,
    ensures
        ({
            let after = m.edited(kind, cells, r).0;
            match kind {
                Mutation::Grow => after.drop_last() == cells && after.len() == cells.len() + 1,
                Mutation::Shrink => after == cells.drop_last(),
                Mutation::Op => after.len() == cells.len() && after[i].width == cells[i].width
                    && after[i].skip == cells[i].skip && (i != r.pick(cells.len() as u64)
                    ==> after[i] == cells[i]),
                Mutation::Width => after.len() == cells.len() && after[i].op == cells[i].op
                    && after[i].skip == cells[i].skip && (i != r.pick(cells.len() as u64)
                    ==> after[i] == cells[i]),
                Mutation::Skip => after.len() == cells.len() && after[i].op == cells[i].op
                    && after[i].width == cells[i].width && (after[i].skip != cells[i].skip <==> i
                    == 1 + r.pick((cells.len() - 1) as u64)),
            }
        }),
{
    if kind == Mutation::Grow {
        let l = m.cell_at(m.skips, r).0;
        assert(cells.push(l).drop_last() =~= cells);
    }
}

} // verus!
