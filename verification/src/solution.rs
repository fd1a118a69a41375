//! What a solution of the median program means: the chains that are read off
//! the values of its unknowns, and the identity that its equalities state of
//! them.

use crate::boundary::boundary_sign;
use crate::chain::Chain;
use crate::layout::Layout;
use crate::mesh::Mesh;
use crate::program::{edge_terms, fill_terms, row_terms, Program, Term};
use crate::simplex::{Edge, Triangle};
use vstd::prelude::*;

verus! {

/// The sum of the terms when the unknowns have the values `x`.
pub open spec fn terms_value(terms: Seq<Term>, x: Seq<real>) -> real
    decreases terms.len(),
{
    if terms.len() == 0 {
        0real
    } else {
        terms_value(terms.drop_last(), x)
            + (terms.last().coeff as real) * x[terms.last().var as int]
    }
}

/// The coefficient of the median chain on edge `i`.
pub open spec fn median_at(l: Layout, x: Seq<real>, i: int) -> real {
    x[l.t_plus_at(i)] - x[l.t_minus_at(i)]
}

/// The coefficient of the residual 1-chain of input chain `h` on edge `i`.
pub open spec fn residual_at(l: Layout, x: Seq<real>, h: int, i: int) -> real {
    x[l.r_plus_at(h, i)] - x[l.r_minus_at(h, i)]
}

/// The coefficient of the fill 2-chain of input chain `h` on triangle `j`.
pub open spec fn fill_at(l: Layout, x: Seq<real>, h: int, j: int) -> real {
    x[l.s_plus_at(h, j)] - x[l.s_minus_at(h, j)]
}

/// The coefficient on the edge `e` of the boundary of the fill of chain `h`,
/// summed over the triangles before `upto`.
pub open spec fn fill_boundary_at(
    l: Layout,
    e: Edge,
    triangles: Seq<Triangle>,
    x: Seq<real>,
    h: int,
    upto: int,
) -> real
    decreases upto,
{
    if upto <= 0 {
        0real
    } else {
        fill_boundary_at(l, e, triangles, x, h, upto - 1) + (boundary_sign(e, triangles[upto - 1])
            as real) * fill_at(l, x, h, upto - 1)
    }
}

/// The flat decomposition of the median for input chain `h` on edge `i`:
/// the median less the input chain is the residual plus the boundary of the
/// fill.
pub open spec fn decomposes_at(
    l: Layout,
    mesh: &Mesh,
    input: Seq<Chain>,
    x: Seq<real>,
    h: int,
    i: int,
) -> bool {
    median_at(l, x, i) - (input[h].coeff@[i] as real) == residual_at(l, x, h, i) + fill_boundary_at(
        l,
        mesh.edges@[i],
        mesh.triangles@,
        x,
        h,
        mesh.triangles@.len() as int,
    )
}

impl Program {
    /// The values `x` meet the equality with index `r`.
    pub open spec fn row_holds(&self, r: int, x: Seq<real>) -> bool {
        terms_value(self.rows@[r].terms@, x) == self.rows@[r].rhs as real
    }

    /// The values `x` are a solution: one value for each unknown, none of
    /// them negative, and every equality met.
    pub open spec fn feasible(&self, x: Seq<real>) -> bool {
        &&& x.len() == self.layout.total()
        &&& forall|k: int| 0 <= k < x.len() ==> #[trigger] x[k] >= 0real
        &&& forall|r: int| 0 <= r < self.rows@.len() ==> #[trigger] self.row_holds(r, x)
    }
}

/// The value of a sequence of terms with one more term.
pub proof fn lemma_terms_value_push(terms: Seq<Term>, t: Term, x: Seq<real>)
    ensures
        terms_value(terms.push(t), x) == terms_value(terms, x)
            + (t.coeff as real) * x[t.var as int],
{
    assert(terms.push(t).drop_last() =~= terms);
}

/// The value of two sequences of terms, one after the other, is the sum of
/// their values.
pub proof fn lemma_terms_value_concat(a: Seq<Term>, b: Seq<Term>, x: Seq<real>)
    ensures
        terms_value(a + b, x) == terms_value(a, x) + terms_value(b, x),
    decreases b.len(),
{
    if b.len() == 0 {
        assert(a + b =~= a);
    } else {
        lemma_terms_value_concat(a, b.drop_last(), x);
        assert((a + b).drop_last() =~= a + b.drop_last());
    }
}

/// The product of a sign and a value.
pub proof fn lemma_sign_times(b: int, y: real)
    ensures
        b == 0 ==> (b as real) * y == 0real,
        b == 1 ==> (b as real) * y == y,
        b == -1 ==> (b as real) * y == -y,
{
    if b == 0 {
        assert((0int as real) * y == 0real) by (nonlinear_arith);
    } else if b == 1 {
        assert((1int as real) * y == y) by (nonlinear_arith);
    } else if b == -1 {
        assert(((-1int) as real) * y == -y) by (nonlinear_arith);
    }
}

/// The terms of a fill in an equality sum to the negated boundary of the
/// fill.
pub proof fn lemma_fill_terms_value(
    l: Layout,
    e: Edge,
    triangles: Seq<Triangle>,
    x: Seq<real>,
    h: int,
    upto: int,
)
    requires
        l.fits(),
        0 <= h < l.chains,
        0 <= upto <= l.triangles,
        upto <= triangles.len(),
    ensures
        terms_value(fill_terms(l, e, triangles, h, upto), x) == -fill_boundary_at(
            l,
            e,
            triangles,
            x,
            h,
            upto,
        ),
    decreases upto,
{
    if upto > 0 {
        let j = upto - 1;
        lemma_fill_terms_value(l, e, triangles, x, h, j);
        l.lemma_block_bound(h);
        let b = boundary_sign(e, triangles[j]);
        let before = fill_terms(l, e, triangles, h, j);
        let plus = Term { var: l.s_plus_at(h, j) as usize, coeff: (-b) as i8 };
        let minus = Term { var: l.s_minus_at(h, j) as usize, coeff: b as i8 };
        let y = fill_at(l, x, h, j);
        lemma_sign_times(b, y);
        if b != 0 {
            lemma_terms_value_push(before, plus, x);
            lemma_terms_value_push(before.push(plus), minus, x);
            assert(plus.var as int == l.s_plus_at(h, j));
            assert(minus.var as int == l.s_minus_at(h, j));
            lemma_sign_times(plus.coeff as int, x[l.s_plus_at(h, j)]);
            lemma_sign_times(minus.coeff as int, x[l.s_minus_at(h, j)]);
        }
    }
}

/// The equality of chain `h` and edge `i` holds of the values `x` exactly
/// when the chains read off `x` satisfy the flat decomposition there.
pub proof fn lemma_row_states_decomposition(
    p: &Program,
    mesh: &Mesh,
    input: Seq<Chain>,
    x: Seq<real>,
    h: int,
    i: int,
)
    requires
        p.is_program_of(mesh, input),
        0 <= h < input.len(),
        0 <= i < mesh.edges@.len(),
    ensures
        0 <= h * p.layout.edges + i < p.rows@.len(),
        p.row_holds(h * p.layout.edges + i, x) <==> decomposes_at(p.layout, mesh, input, x, h, i),
{
    let l = p.layout;
    let m = l.edges as int;
    let n = mesh.triangles@.len() as int;
    assert(0 <= h * m + i < l.chains * m) by (nonlinear_arith)
        requires
            0 <= h < l.chains,
            0 <= i < m,
    ;
    let row = p.rows@[h * m + i];
    assert(row.terms@ == row_terms(l, mesh, h, i));
    let e = mesh.edges@[i];
    let fills = fill_terms(l, e, mesh.triangles@, h, n);
    lemma_terms_value_concat(edge_terms(l, h, i), fills, x);
    lemma_fill_terms_value(l, e, mesh.triangles@, x, h, n);
    l.lemma_block_bound(h);
    let t0 = Term { var: l.t_plus_at(i) as usize, coeff: 1 };
    let t1 = Term { var: l.t_minus_at(i) as usize, coeff: -1i8 };
    let t2 = Term { var: l.r_plus_at(h, i) as usize, coeff: -1i8 };
    let t3 = Term { var: l.r_minus_at(h, i) as usize, coeff: 1 };
    let none = Seq::<Term>::empty();
    assert(edge_terms(l, h, i) =~= none.push(t0).push(t1).push(t2).push(t3));
    lemma_sign_times(1, x[l.t_plus_at(i)]);
    lemma_sign_times(-1, x[l.t_minus_at(i)]);
    lemma_sign_times(-1, x[l.r_plus_at(h, i)]);
    lemma_sign_times(1, x[l.r_minus_at(h, i)]);
    lemma_terms_value_push(none, t0, x);
    lemma_terms_value_push(none.push(t0), t1, x);
    lemma_terms_value_push(none.push(t0).push(t1), t2, x);
    lemma_terms_value_push(none.push(t0).push(t1).push(t2), t3, x);
    assert(terms_value(none, x) == 0real);
    assert(terms_value(edge_terms(l, h, i), x) == median_at(l, x, i) - residual_at(l, x, h, i));
}

/// Flat decomposition identity: for every solution of the median program,
/// every input chain and every edge, the median less the input chain is the
/// residual plus the boundary of the fill.
pub proof fn lemma_flat_decomposition(
    p: &Program,
    mesh: &Mesh,
    input: Seq<Chain>,
    x: Seq<real>,
    h: int,
    i: int,
)
    requires
        p.is_program_of(mesh, input),
        p.feasible(x),
        0 <= h < input.len(),
        0 <= i < mesh.edges@.len(),
    ensures
        decomposes_at(p.layout, mesh, input, x, h, i),
{
    lemma_row_states_decomposition(p, mesh, input, x, h, i);
    assert(p.row_holds(h * p.layout.edges + i, x));
}

} // verus!
