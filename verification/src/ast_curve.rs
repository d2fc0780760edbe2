//! Symbolic G1 group elements that record curve operations.
//!
//! A `G1Recorder` holds the append-only list of recorded G1 operations (an
//! operation's id is its position), the equality constraints registered in
//! constraint mode, the naming counters, and the coordinates captured for
//! points converted from concrete generators.

use vstd::prelude::*;
use crate::mle_ast::MleAst;
use crate::text::{dec, push_dec, text_of};

verus! {

/// The id of a recorded G1 operation.
pub type G1OpId = u32;

/// The id that stands for "no operation".
pub const G1_OP_NONE: u32 = 0xFFFF_FFFFu32;

/// The chunk index that stands for "no chunks".
pub const NO_CHUNKS: u32 = 0xFFFF_FFFFu32;

/// A recorded G1 operation; operands are ids of earlier operations, scalars
/// are ids of arena nodes.
#[derive(Clone, Debug)]
pub enum G1Op {
    Zero,
    Var(String),
    Add(u32, u32),
    Sub(u32, u32),
    Neg(u32),
    Double(u32),
    ScalarMul(u32, usize),
    MSM(Vec<u32>, Vec<usize>),
}

/// The spec form of a recorded operation: names by their characters, lists
/// by their elements.
pub enum G1OpSpec {
    Zero,
    Var(Seq<char>),
    Add(u32, u32),
    Sub(u32, u32),
    Neg(u32),
    Double(u32),
    ScalarMul(u32, usize),
    MSM(Seq<u32>, Seq<usize>),
}

impl View for G1Op {
    type V = G1OpSpec;

    open spec fn view(&self) -> G1OpSpec {
        match self {
            G1Op::Zero => G1OpSpec::Zero,
            G1Op::Var(s) => G1OpSpec::Var(s@),
            G1Op::Add(a, b) => G1OpSpec::Add(*a, *b),
            G1Op::Sub(a, b) => G1OpSpec::Sub(*a, *b),
            G1Op::Neg(a) => G1OpSpec::Neg(*a),
            G1Op::Double(a) => G1OpSpec::Double(*a),
            G1Op::ScalarMul(a, n) => G1OpSpec::ScalarMul(*a, *n),
            G1Op::MSM(bs, ss) => G1OpSpec::MSM(bs@, ss@),
        }
    }
}

/// An equality between two recorded points, registered in constraint mode.
#[derive(Clone, Debug)]
pub struct G1Constraint {
    pub name: String,
    pub lhs: u32,
    pub rhs: u32,
}

/// A captured point: its name and the decimal coordinates `(x, y)`.
pub type G1Witness = (String, String, String);

/// The recording state for symbolic G1 arithmetic.
pub struct G1Recorder {
    /// Recorded operations; an operation's id is its index.
    pub ops: Vec<G1Op>,
    /// Equality constraints registered in constraint mode.
    pub constraints: Vec<G1Constraint>,
    /// Whether comparisons register constraints.
    pub constraint_mode: bool,
    /// Counter naming the equality constraints.
    pub constraint_counter: u32,
    /// Counter naming the points converted from concrete generators.
    pub from_counter: u32,
    /// Coordinates captured for converted points.
    pub from_witnesses: Vec<G1Witness>,
    /// Symbolic chunks of serialized points, by chunk index.
    pub chunk_store: Vec<Vec<MleAst>>,
    /// The chunks handed to the transcript by the last serialization.
    pub pending_chunks: Option<Vec<MleAst>>,
}

/// One more, wrapping around at the largest `u32` (as an atomic counter does).
pub open spec fn next_count(c: u32) -> u32 {
    if c == u32::MAX { 0 } else { (c + 1) as u32 }
}

fn next_count_exec(c: u32) -> (r: u32)
    ensures
        r == next_count(c),
{
    if c == u32::MAX { 0 } else { c + 1 }
}

/// The views of the recorded operations.
pub open spec fn ops_view(ops: Seq<G1Op>) -> Seq<G1OpSpec> {
    ops.map_values(|o: G1Op| o@)
}

impl G1Recorder {
    /// An empty recorder, outside constraint mode.
    pub fn new() -> (r: Self)
        ensures
            r.ops@.len() == 0,
            r.constraints@.len() == 0,
            !r.constraint_mode,
            r.constraint_counter == 0,
            r.from_counter == 0,
            r.from_witnesses@.len() == 0,
            r.chunk_store@.len() == 0,
            r.pending_chunks is None,
    {
        G1Recorder {
            ops: Vec::new(),
            constraints: Vec::new(),
            constraint_mode: false,
            constraint_counter: 0,
            from_counter: 0,
            from_witnesses: Vec::new(),
            chunk_store: Vec::new(),
            pending_chunks: None,
        }
    }

    /// Whether another operation can be recorded: ids stay below `G1_OP_NONE`.
    pub open spec fn has_room(&self) -> bool {
        self.ops@.len() < G1_OP_NONE
    }

    /// Records an operation and returns its id.
    pub fn record(&mut self, op: G1Op) -> (id: u32)
        requires
            old(self).has_room(),
        ensures
            id == old(self).ops@.len(),
            final(self).ops@ == old(self).ops@.push(op),
            final(self).ops@.drop_last() == old(self).ops@,
            final(self).constraints@ == old(self).constraints@,
            final(self).constraint_mode == old(self).constraint_mode,
            final(self).constraint_counter == old(self).constraint_counter,
            final(self).from_counter == old(self).from_counter,
            final(self).from_witnesses@ == old(self).from_witnesses@,
            final(self).chunk_store@ == old(self).chunk_store@,
            final(self).pending_chunks == old(self).pending_chunks,
    {
        let id = self.ops.len() as u32;
        self.ops.push(op);
        assert(self.ops@.drop_last() =~= old(self).ops@);
        id
    }
}

/// What taking the witnesses out does: it hands out the list and leaves it
/// empty, the rest of the recorder unchanged.
pub open spec fn takes(a: G1Recorder, b: G1Recorder, r: Seq<G1Witness>) -> bool {
    &&& r == a.from_witnesses@
    &&& b.from_witnesses@.len() == 0
    &&& b.ops@ == a.ops@
    &&& b.constraints@ == a.constraints@
    &&& b.constraint_mode == a.constraint_mode
    &&& b.constraint_counter == a.constraint_counter
    &&& b.from_counter == a.from_counter
    &&& b.chunk_store@ == a.chunk_store@
    &&& b.pending_chunks == a.pending_chunks
}

/// Takes out the captured coordinates of converted points, leaving none
/// (`take_g1_from_witnesses`).
pub fn take_g1_from_witnesses(rec: &mut G1Recorder) -> (r: Vec<G1Witness>)
    ensures
        r@ == old(rec).from_witnesses@,
        final(rec).from_witnesses@.len() == 0,
        final(rec).ops@ == old(rec).ops@,
        final(rec).constraints@ == old(rec).constraints@,
        final(rec).constraint_mode == old(rec).constraint_mode,
        final(rec).constraint_counter == old(rec).constraint_counter,
        final(rec).from_counter == old(rec).from_counter,
        final(rec).chunk_store@ == old(rec).chunk_store@,
        final(rec).pending_chunks == old(rec).pending_chunks,
        takes(*old(rec), *final(rec), r@),
{
    let mut taken: Vec<G1Witness> = Vec::new();
    std::mem::swap(&mut taken, &mut rec.from_witnesses);
    taken
}

/// Restarts the naming of converted points at zero (`reset_g1_from_counter`).
pub fn reset_g1_from_counter(rec: &mut G1Recorder)
    ensures
        final(rec).from_counter == 0,
        final(rec).ops@ == old(rec).ops@,
        final(rec).constraints@ == old(rec).constraints@,
        final(rec).constraint_mode == old(rec).constraint_mode,
        final(rec).constraint_counter == old(rec).constraint_counter,
        final(rec).from_witnesses@ == old(rec).from_witnesses@,
        final(rec).chunk_store@ == old(rec).chunk_store@,
        final(rec).pending_chunks == old(rec).pending_chunks,
{
    rec.from_counter = 0;
}

/// The name of the `i`-th converted generator.
pub open spec fn pedersen_name(i: u32) -> Seq<char> {
    "PedersenGen_"@ + dec(i as nat)
}

/// What converting a generator does to the naming state: a witness named
/// after the current counter is appended when coordinates are given, and
/// the counter moves on.
pub open spec fn converts(a: G1Recorder, b: G1Recorder, coords: Option<(String, String)>) -> bool {
    &&& b.from_counter == next_count(a.from_counter)
    &&& match coords {
        Some((x, y)) => b.from_witnesses@.len() == a.from_witnesses@.len() + 1
            && b.from_witnesses@.drop_last() == a.from_witnesses@
            && b.from_witnesses@.last().0@ == pedersen_name(a.from_counter)
            && b.from_witnesses@.last().1 == x
            && b.from_witnesses@.last().2 == y,
        None => b.from_witnesses@ == a.from_witnesses@,
    }
}

/// A witness holds the given coordinates.
pub open spec fn witness_coords(w: G1Witness, coords: Option<(String, String)>) -> bool {
    match coords {
        Some((x, y)) => w.1 == x && w.2 == y,
        None => false,
    }
}

/// The name of the `i`-th registered equality.
pub open spec fn g1_eq_name(i: u32) -> Seq<char> {
    "g1_eq_"@ + dec(i as nat)
}

/// A symbolic G1 element: an index into the chunk store (for transcript
/// absorption) and the id of the operation that produced it.
#[derive(Clone, Copy, Debug)]
pub struct AstGroupElement {
    pub chunk_store_idx: u32,
    pub g1_op_id: u32,
}

impl AstGroupElement {
    /// An element with both indices given (`new_full`).
    pub fn new_full(chunk_store_idx: u32, g1_op_id: u32) -> (r: Self)
        ensures
            r.chunk_store_idx == chunk_store_idx,
            r.g1_op_id == g1_op_id,
    {
        AstGroupElement { chunk_store_idx, g1_op_id }
    }

    /// An element backed by stored chunks only, with no operation (`new`).
    pub fn new(chunk_store_idx: u32) -> (r: Self)
        ensures
            r.chunk_store_idx == chunk_store_idx,
            r.g1_op_id == G1_OP_NONE,
    {
        AstGroupElement { chunk_store_idx, g1_op_id: G1_OP_NONE }
    }

    /// An element produced by an operation, with no chunks (`from_g1_op`).
    pub fn from_g1_op(g1_op_id: u32) -> (r: Self)
        ensures
            r.chunk_store_idx == NO_CHUNKS,
            r.g1_op_id == g1_op_id,
    {
        AstGroupElement { chunk_store_idx: NO_CHUNKS, g1_op_id }
    }

    /// The id of the operation that produced the element (`g1_op_id`).
    pub fn g1_op_id(&self) -> (r: u32)
        ensures
            r == self.g1_op_id,
    {
        self.g1_op_id
    }

    /// Converts a concrete generator into a fresh named point
    /// `PedersenGen_N`, N counting the conversions; given its coordinates,
    /// records them as a witness under that name.
    pub fn from_generator(rec: &mut G1Recorder, coords: Option<(String, String)>) -> (r: Self)
        requires
            old(rec).has_room(),
        ensures
            r.chunk_store_idx == NO_CHUNKS,
            r.g1_op_id == old(rec).ops@.len(),
            ops_view(final(rec).ops@) == ops_view(old(rec).ops@).push(G1OpSpec::Var(pedersen_name(old(rec).from_counter))),
            final(rec).from_counter == next_count(old(rec).from_counter),
            match coords {
                Some((x, y)) => final(rec).from_witnesses@.len() == old(rec).from_witnesses@.len() + 1
                    && final(rec).from_witnesses@.drop_last() == old(rec).from_witnesses@
                    && final(rec).from_witnesses@.last().0@ == pedersen_name(old(rec).from_counter)
                    && final(rec).from_witnesses@.last().1 == x
                    && final(rec).from_witnesses@.last().2 == y,
                None => final(rec).from_witnesses@ == old(rec).from_witnesses@,
            },
            final(rec).constraints@ == old(rec).constraints@,
            final(rec).constraint_mode == old(rec).constraint_mode,
            final(rec).constraint_counter == old(rec).constraint_counter,
            final(rec).chunk_store@ == old(rec).chunk_store@,
            final(rec).pending_chunks == old(rec).pending_chunks,
            converts(*old(rec), *final(rec), coords),
    {
        let idx = rec.from_counter;
        rec.from_counter = next_count_exec(idx);
        let mut name = text_of("PedersenGen_");
        push_dec(&mut name, idx as u64);
        assert(name@ =~= pedersen_name(idx));
        match coords {
            Some((x, y)) => {
                let entry = (name.clone(), x, y);
                rec.from_witnesses.push(entry);
                assert(rec.from_witnesses@.drop_last() =~= old(rec).from_witnesses@);
            },
            None => {},
        }
        let ghost before = rec.ops@;
        let id = rec.record(G1Op::Var(name));
        assert(ops_view(rec.ops@) =~= ops_view(before).push(G1OpSpec::Var(pedersen_name(idx))));
        AstGroupElement::from_g1_op(id)
    }

    /// Compares two elements. In constraint mode, when both come from
    /// operations, registers the equality as the constraint `g1_eq_N` and
    /// answers `true`; otherwise compares both indices.
    pub fn equals(&self, other: &Self, rec: &mut G1Recorder) -> (r: bool)
        ensures
            rec_constant_except_constraints(*old(rec), *final(rec)),
            if old(rec).constraint_mode && self.g1_op_id != G1_OP_NONE && other.g1_op_id != G1_OP_NONE {
                &&& r
                &&& final(rec).constraint_counter == next_count(old(rec).constraint_counter)
                &&& final(rec).constraints@.len() == old(rec).constraints@.len() + 1
                &&& final(rec).constraints@.drop_last() == old(rec).constraints@
                &&& final(rec).constraints@.last().name@ == g1_eq_name(old(rec).constraint_counter)
                &&& final(rec).constraints@.last().lhs == self.g1_op_id
                &&& final(rec).constraints@.last().rhs == other.g1_op_id
            } else {
                &&& r == (self.chunk_store_idx == other.chunk_store_idx && self.g1_op_id == other.g1_op_id)
                &&& final(rec).constraint_counter == old(rec).constraint_counter
                &&& final(rec).constraints@ == old(rec).constraints@
            },
    {
        if rec.constraint_mode && self.g1_op_id != G1_OP_NONE && other.g1_op_id != G1_OP_NONE {
            let idx = rec.constraint_counter;
            rec.constraint_counter = next_count_exec(idx);
            let mut name = text_of("g1_eq_");
            push_dec(&mut name, idx as u64);
            assert(name@ =~= g1_eq_name(idx));
            rec.constraints.push(G1Constraint { name, lhs: self.g1_op_id, rhs: other.g1_op_id });
            assert(rec.constraints@.drop_last() =~= old(rec).constraints@);
            true
        } else {
            self.chunk_store_idx == other.chunk_store_idx && self.g1_op_id == other.g1_op_id
        }
    }

    /// Records `self + rhs`.
    pub fn add(self, rhs: Self, rec: &mut G1Recorder) -> (r: Self)
        requires
            old(rec).has_room(),
        ensures
            records(*old(rec), *final(rec), r, G1OpSpec::Add(self.g1_op_id, rhs.g1_op_id)),
    {
        let id = rec.record(G1Op::Add(self.g1_op_id, rhs.g1_op_id));
        AstGroupElement::from_g1_op(id)
    }

    /// Records `self - rhs`.
    pub fn sub(self, rhs: Self, rec: &mut G1Recorder) -> (r: Self)
        requires
            old(rec).has_room(),
        ensures
            records(*old(rec), *final(rec), r, G1OpSpec::Sub(self.g1_op_id, rhs.g1_op_id)),
    {
        let id = rec.record(G1Op::Sub(self.g1_op_id, rhs.g1_op_id));
        AstGroupElement::from_g1_op(id)
    }

    /// Records `-self`.
    pub fn neg(self, rec: &mut G1Recorder) -> (r: Self)
        requires
            old(rec).has_room(),
        ensures
            records(*old(rec), *final(rec), r, G1OpSpec::Neg(self.g1_op_id)),
    {
        let id = rec.record(G1Op::Neg(self.g1_op_id));
        AstGroupElement::from_g1_op(id)
    }

    /// Records `self + rhs` in place; the result has no chunks.
    pub fn add_assign(&mut self, rhs: Self, rec: &mut G1Recorder)
        requires
            old(rec).has_room(),
        ensures
            records(*old(rec), *final(rec), *final(self), G1OpSpec::Add(old(self).g1_op_id, rhs.g1_op_id)),
    {
        let id = rec.record(G1Op::Add(self.g1_op_id, rhs.g1_op_id));
        self.g1_op_id = id;
        self.chunk_store_idx = NO_CHUNKS;
    }

    /// Records `self - rhs` in place; the result has no chunks.
    pub fn sub_assign(&mut self, rhs: Self, rec: &mut G1Recorder)
        requires
            old(rec).has_room(),
        ensures
            records(*old(rec), *final(rec), *final(self), G1OpSpec::Sub(old(self).g1_op_id, rhs.g1_op_id)),
    {
        let id = rec.record(G1Op::Sub(self.g1_op_id, rhs.g1_op_id));
        self.g1_op_id = id;
        self.chunk_store_idx = NO_CHUNKS;
    }

    /// Records the identity element.
    pub fn zero(rec: &mut G1Recorder) -> (r: Self)
        requires
            old(rec).has_room(),
        ensures
            records(*old(rec), *final(rec), r, G1OpSpec::Zero),
    {
        let id = rec.record(G1Op::Zero);
        AstGroupElement { chunk_store_idx: NO_CHUNKS, g1_op_id: id }
    }

    /// Whether the element is the default one: no operation and no chunks.
    /// (A computed point is never known to be zero.)
    pub fn is_zero(&self) -> (r: bool)
        ensures
            r == (self.g1_op_id == G1_OP_NONE && self.chunk_store_idx == NO_CHUNKS),
    {
        self.g1_op_id == G1_OP_NONE && self.chunk_store_idx == NO_CHUNKS
    }

    /// Records `2 * self`.
    pub fn double(&self, rec: &mut G1Recorder) -> (r: Self)
        requires
            old(rec).has_room(),
        ensures
            records(*old(rec), *final(rec), r, G1OpSpec::Double(self.g1_op_id)),
    {
        let id = rec.record(G1Op::Double(self.g1_op_id));
        AstGroupElement::from_g1_op(id)
    }

    /// Records `scalar * self`, the scalar being a symbolic field element.
    pub fn scalar_mul(&self, scalar: &MleAst, rec: &mut G1Recorder) -> (r: Self)
        requires
            old(rec).has_room(),
        ensures
            records(*old(rec), *final(rec), r, G1OpSpec::ScalarMul(self.g1_op_id, scalar.root)),
    {
        let id = rec.record(G1Op::ScalarMul(self.g1_op_id, scalar.root()));
        AstGroupElement::from_g1_op(id)
    }

    /// Serializing hands the element's stored chunks, if it has any, to the
    /// transcript (as the pending chunks); nothing is written.
    pub fn serialize(&self, rec: &mut G1Recorder)
        requires
            self.chunk_store_idx != NO_CHUNKS ==> self.chunk_store_idx < old(rec).chunk_store@.len(),
        ensures
            final(rec).ops@ == old(rec).ops@,
            final(rec).constraints@ == old(rec).constraints@,
            final(rec).constraint_mode == old(rec).constraint_mode,
            final(rec).constraint_counter == old(rec).constraint_counter,
            final(rec).from_counter == old(rec).from_counter,
            final(rec).from_witnesses@ == old(rec).from_witnesses@,
            final(rec).chunk_store@ == old(rec).chunk_store@,
            if self.chunk_store_idx != NO_CHUNKS {
                final(rec).pending_chunks matches Some(c) && c@ == old(rec).chunk_store@[self.chunk_store_idx as int]@
            } else {
                final(rec).pending_chunks == old(rec).pending_chunks
            },
    {
        if self.chunk_store_idx != NO_CHUNKS {
            let chunks = rec.chunk_store[self.chunk_store_idx as usize].clone();
            assert(chunks@ =~= old(rec).chunk_store@[self.chunk_store_idx as int]@);
            rec.pending_chunks = Some(chunks);
        }
    }
}

/// Everything but the constraints and their counter is unchanged.
pub open spec fn rec_constant_except_constraints(a: G1Recorder, b: G1Recorder) -> bool {
    &&& b.ops@ == a.ops@
    &&& b.constraint_mode == a.constraint_mode
    &&& b.from_counter == a.from_counter
    &&& b.from_witnesses@ == a.from_witnesses@
    &&& b.chunk_store@ == a.chunk_store@
    &&& b.pending_chunks == a.pending_chunks
}

/// `b` is `a` with `op` recorded, and `r` is the element it produced: no
/// chunks, and the new operation's id.
pub open spec fn records(a: G1Recorder, b: G1Recorder, r: AstGroupElement, op: G1OpSpec) -> bool {
    &&& r.chunk_store_idx == NO_CHUNKS
    &&& r.g1_op_id == a.ops@.len()
    &&& b.ops@.len() == a.ops@.len() + 1
    &&& b.ops@.drop_last() == a.ops@
    &&& b.ops@.last()@ == op
    &&& b.constraints@ == a.constraints@
    &&& b.constraint_mode == a.constraint_mode
    &&& b.constraint_counter == a.constraint_counter
    &&& b.from_counter == a.from_counter
    &&& b.from_witnesses@ == a.from_witnesses@
    &&& b.chunk_store@ == a.chunk_store@
    &&& b.pending_chunks == a.pending_chunks
}

impl Default for AstGroupElement {
    /// No chunks and no operation.
    fn default() -> (r: Self)
        ensures
            r.chunk_store_idx == NO_CHUNKS,
            r.g1_op_id == G1_OP_NONE,
    {
        AstGroupElement { chunk_store_idx: NO_CHUNKS, g1_op_id: G1_OP_NONE }
    }
}

/// The target-group element of the symbolic curve; pairings are never taken
/// during symbolic execution, so it carries nothing.
#[derive(Clone, Debug, Default, PartialEq, Eq)]
pub struct AstGTElement;

/// The symbolic curve: G1 operations are recorded; G2 uses the same element
/// type and the target group is `AstGTElement`.
#[derive(Clone, Debug, Default)]
pub struct AstCurve;

impl AstCurve {
    /// Records a multi-scalar multiplication of the bases by the symbolic
    /// scalars.
    pub fn g1_msm(bases: &[AstGroupElement], scalars: &[MleAst], rec: &mut G1Recorder) -> (r: AstGroupElement)
        requires
            old(rec).has_room(),
        ensures
            records(*old(rec), *final(rec), r, G1OpSpec::MSM(
                bases@.map_values(|b: AstGroupElement| b.g1_op_id),
                scalars@.map_values(|s: MleAst| s.root),
            )),
    {
        let mut base_ids: Vec<u32> = Vec::new();
        let mut i: usize = 0;
        while i < bases.len()
            invariant
                i <= bases@.len(),
                base_ids@ == bases@.subrange(0, i as int).map_values(|b: AstGroupElement| b.g1_op_id),
            decreases bases@.len() - i,
        {
            base_ids.push(bases[i].g1_op_id());
            i += 1;
            assert(base_ids@ =~= bases@.subrange(0, i as int).map_values(|b: AstGroupElement| b.g1_op_id));
        }
        let mut scalar_ids: Vec<usize> = Vec::new();
        let mut j: usize = 0;
        while j < scalars.len()
            invariant
                j <= scalars@.len(),
                scalar_ids@ == scalars@.subrange(0, j as int).map_values(|s: MleAst| s.root),
            decreases scalars@.len() - j,
        {
            scalar_ids.push(scalars[j].root());
            j += 1;
            assert(scalar_ids@ =~= scalars@.subrange(0, j as int).map_values(|s: MleAst| s.root));
        }
        assert(bases@.subrange(0, bases@.len() as int) =~= bases@);
        assert(scalars@.subrange(0, scalars@.len() as int) =~= scalars@);
        let id = rec.record(G1Op::MSM(base_ids, scalar_ids));
        AstGroupElement::from_g1_op(id)
    }
}


/// After the counter is reset (`reset_g1_from_counter`), the generators
/// converted next are named `PedersenGen_0`, `PedersenGen_1`, ... in order
/// (conversion `i` takes the counter `i`), whatever the witness list holds;
/// and when the witnesses were taken out first (`take_g1_from_witnesses`)
/// and each conversion is given coordinates, the witnesses then taken are
/// exactly those conversions', in order, under those names.
pub proof fn law_generator_names(rs: Seq<G1Recorder>, cs: Seq<Option<(String, String)>>)
    requires
        rs.len() == cs.len() + 1,
        rs[0].from_counter == 0,
        cs.len() <= u32::MAX,
        forall|i: int| 0 <= i < cs.len() ==> converts(#[trigger] rs[i], rs[i + 1], cs[i]),
    ensures
        forall|i: int| 0 <= i <= cs.len() ==> (#[trigger] rs[i]).from_counter == i,
        rs[0].from_witnesses@.len() == 0 && (forall|i: int| 0 <= i < cs.len() ==> (#[trigger] cs[i]) is Some) ==> {
            &&& rs.last().from_witnesses@.len() == cs.len()
            &&& forall|i: int| 0 <= i < cs.len() ==> {
                &&& (#[trigger] rs.last().from_witnesses@[i]).0@ == pedersen_name(i as u32)
                &&& witness_coords(rs.last().from_witnesses@[i], cs[i])
            }
        },
    decreases cs.len(),
{
    if cs.len() > 0 {
        let n = cs.len() - 1;
        law_generator_names(rs.drop_last(), cs.drop_last());
        assert(converts(rs[n], rs[n + 1], cs[n]));
        assert(rs.drop_last()[n] == rs[n]);
        assert(rs[n].from_counter == n);
        assert forall|i: int| 0 <= i <= cs.len() implies (#[trigger] rs[i]).from_counter == i by {
            if i < cs.len() {
                assert(rs.drop_last()[i] == rs[i]);
            }
        }
        if rs[0].from_witnesses@.len() == 0 && forall|i: int| 0 <= i < cs.len() ==> (#[trigger] cs[i]) is Some {
            assert forall|i: int| 0 <= i < cs.drop_last().len() implies (#[trigger] cs.drop_last()[i]) is Some by {
                assert(cs.drop_last()[i] == cs[i]);
            }
            assert(cs[n] is Some);
            let b = rs[n + 1];
            let a = rs[n];
            assert(a == rs.drop_last().last());
            assert forall|i: int| 0 <= i < cs.len() implies {
                &&& (#[trigger] rs.last().from_witnesses@[i]).0@ == pedersen_name(i as u32)
                &&& witness_coords(rs.last().from_witnesses@[i], cs[i])
            } by {
                if i < n {
                    assert(b.from_witnesses@[i] == b.from_witnesses@.drop_last()[i]);
                    assert(cs.drop_last()[i] == cs[i]);
                }
            }
        }
    }
}


/// A take right after a take hands out nothing and changes nothing.
pub proof fn law_take_twice(a: G1Recorder, b: G1Recorder, c: G1Recorder, r1: Seq<G1Witness>, r2: Seq<G1Witness>)
    requires
        takes(a, b, r1),
        takes(b, c, r2),
    ensures
        r1 == a.from_witnesses@,
        r2.len() == 0,
        c.from_witnesses@ == b.from_witnesses@,
        c.from_counter == b.from_counter,
        c.ops@ == b.ops@,
{
    assert(c.from_witnesses@ =~= b.from_witnesses@);
}

} // verus!
