//! The spreadsheet: owns the cell store and the dependency graph, and on
//! every write reparses the cell, rewires its dependencies and recomputes
//! every formula cell in dependency order.

use vstd::prelude::*;
use crate::ast::{spec_references, Expr};
use crate::cell::{spec_default_cell, Cell, CellModel, Content, ContentModel, Sheet};
use crate::evaluate::{evaluate, lemma_evaluate_frame, spec_cell_value, spec_evaluate};
use crate::graph::DirectedGraph;
use crate::parser::{parse_formula, spec_parse_formula};
use crate::reference::Reference;
use crate::value::{
    result_view, spec_literal_value, EvaluationError, EvaluationResult, Value,
};

verus! {

/// Whether `x` holds a successfully parsed formula in `m`.
pub open spec fn is_formula_cell(m: Map<Reference, CellModel>, x: Reference) -> bool {
    m.dom().contains(x) && m[x].content is Formula
}

/// The parsed formula of a formula cell.
pub open spec fn formula_of(m: Map<Reference, CellModel>, x: Reference) -> Expr {
    m[x].content->Formula_0
}

/// Whether entered text is treated as a formula: it begins with `=`.
pub open spec fn is_formula_text(s: Seq<char>) -> bool {
    s.len() > 0 && s[0] == '='
}

/// The content the engine stores for entered text: a formula when the
/// text begins with `=` and parses, an invalid marker when it begins with
/// `=` and does not, and otherwise the text parsed as a literal.
pub open spec fn spec_content_of(s: Seq<char>) -> ContentModel {
    if is_formula_text(s) {
        match spec_parse_formula(s) {
            Some(e) => ContentModel::Formula(e),
            None => ContentModel::Invalid(EvaluationError::ParseError),
        }
    } else {
        ContentModel::Literal(spec_literal_value(s))
    }
}

/// The dependencies the engine records for entered text: the references of
/// a parsed formula; a cell with literal or unparseable content depends on
/// nothing.
pub open spec fn spec_references_of(s: Seq<char>) -> Set<Reference> {
    match spec_content_of(s) {
        ContentModel::Formula(e) => spec_references(e),
        _ => Set::empty(),
    }
}

/// The cell as it stands right after text entry, before any
/// recalculation: the text is kept verbatim; a literal fixes the value at
/// once and an unparseable formula fixes the error, while a parsed
/// formula keeps its previous value until the recalculation pass.
pub open spec fn spec_entered_cell(s: Seq<char>, prev: CellModel) -> CellModel {
    let content = spec_content_of(s);
    CellModel {
        raw_text: s,
        content: content,
        value: match content {
            ContentModel::Formula(_) => prev.value,
            ContentModel::Invalid(e) => Err(e),
            ContentModel::Literal(v) => Ok(v),
        },
    }
}

/// The stored cell, or the blank default for a reference never written.
pub open spec fn spec_prev_cell(m: Map<Reference, CellModel>, x: Reference) -> CellModel {
    if m.dom().contains(x) {
        m[x]
    } else {
        spec_default_cell()
    }
}

/// Two sheets with the same cells, texts and contents, differing at most
/// in computed values.
pub open spec fn same_layout(a: Map<Reference, CellModel>, b: Map<Reference, CellModel>) -> bool {
    &&& forall|x: Reference|
        #![trigger a.dom().contains(x)]
        #![trigger b.dom().contains(x)]
        a.dom().contains(x) <==> b.dom().contains(x)
    &&& forall|x: Reference|
        #![trigger b[x]]
        a.dom().contains(x) ==> b[x].raw_text == a[x].raw_text && b[x].content == a[x].content
}

/// The spreadsheet: the cell store and the dependency graph, exclusively
/// owned.
pub struct Spreadsheet {
    cells: Sheet,
    dependencies: DirectedGraph,
}

impl Spreadsheet {
    /// The stored cells, as a mapping from references to cell models.
    pub closed spec fn sheet(self) -> Map<Reference, CellModel> {
        self.cells@
    }

    /// The dependency graph.
    pub closed spec fn graph(self) -> DirectedGraph {
        self.dependencies
    }

    /// The invariant tying the store to the graph: the graph holds the
    /// edge `u -> x` exactly when `x`'s parsed formula references `u`, and
    /// every formula cell has a graph node.
    pub closed spec fn wf(self) -> bool {
        &&& self.cells.wf()
        &&& self.dependencies.wf()
        &&& forall|u: Reference, x: Reference|
            #[trigger] self.dependencies.edge(u, x) ==> is_formula_cell(self.cells@, x)
                && spec_references(formula_of(self.cells@, x)).contains(u)
        &&& forall|u: Reference, x: Reference|
            is_formula_cell(self.cells@, x) && #[trigger] spec_references(
                formula_of(self.cells@, x),
            ).contains(u) ==> self.dependencies.edge(u, x)
        &&& forall|x: Reference|
            #[trigger] is_formula_cell(self.cells@, x) ==> self.dependencies.contains_node(x)
    }

    /// An empty spreadsheet: no cells, no dependencies.
    pub fn new() -> (s: Spreadsheet)
        ensures
            s.wf(),
            s.sheet() == Map::<Reference, CellModel>::empty(),
            forall|a: Reference, b: Reference| !(#[trigger] s.graph().edge(a, b)),
            forall|x: Reference| !(#[trigger] s.graph().contains_node(x)),
    {
        Spreadsheet { cells: Sheet::new(), dependencies: Default::default() }
    }

    /// The cell store, for display and export in key order.
    pub fn cells(&self) -> (r: &Sheet)
        ensures
            r@ == self.sheet(),
            self.wf() ==> r.wf(),
    {
        &self.cells
    }

    /// The dependency graph, read-only.
    pub fn dependencies(&self) -> (r: &DirectedGraph)
        ensures
            *r == self.graph(),
    {
        &self.dependencies
    }

    /// Looks a cell up; an absent reference is a valid blank state.
    pub fn get(&self, reference: Reference) -> (o: Option<&Cell>)
        requires
            self.wf(),
        ensures
            o is Some <==> self.sheet().dom().contains(reference),
            o matches Some(c) ==> c@ == self.sheet()[reference],
    {
        self.cells.get(reference)
    }

    /// Evaluates the formula of `reference` against the current store, or
    /// nothing if the cell is absent or holds no formula.
    fn calculate_cell(&self, reference: Reference) -> (o: Option<EvaluationResult>)
        requires
            self.cells.wf(),
        ensures
            o is Some <==> is_formula_cell(self.cells@, reference),
            o matches Some(v) ==> result_view(v) == spec_evaluate(
                formula_of(self.cells@, reference),
                self.cells@,
            ),
    {
        match self.cells.get(reference) {
            Some(cell) => {
                match cell.formula() {
                    Some(f) => Some(evaluate(f, &self.cells)),
                    None => None,
                }
            },
            None => None,
        }
    }

    /// The full recalculation pass: computes a topological order over the
    /// whole graph and recomputes every formula cell in that order. When
    /// the graph holds a cycle the pass is abandoned: no value changes and
    /// the cycle is reported.
    fn recalculate(&mut self) -> (r: Result<(), EvaluationError>)
        requires
            old(self).wf(),
        ensures
            final(self).wf(),
            final(self).dependencies == old(self).dependencies,
            same_layout(old(self).cells@, final(self).cells@),
            r is Ok <==> !old(self).dependencies.has_cycle(),
            (match r {
                Ok(()) => {
                    &&& forall|x: Reference|
                        #[trigger] is_formula_cell(final(self).cells@, x) ==> final(self).cells@[x].value == spec_evaluate(
                            formula_of(final(self).cells@, x),
                            final(self).cells@,
                        )
                    &&& forall|x: Reference|
                        #![trigger final(self).cells@[x]]
                        final(self).cells@.dom().contains(x) && !is_formula_cell(
                            final(self).cells@,
                            x,
                        ) ==> final(self).cells@[x].value == old(self).cells@[x].value
                },
                Err(e) => e == EvaluationError::CyclicDependency && final(self).cells@ == old(self).cells@,
            }),
    {
        let ghost m0 = self.cells@;
        let order = match self.dependencies.to_topological_sort() {
            Err(_) => {
                return Err(EvaluationError::CyclicDependency);
            },
            Ok(o) => o,
        };
        let n = order.len();
        let mut i: usize = 0;
        while i < n
            invariant
                i <= n == order@.len(),
                self.wf(),
                self.dependencies == old(self).dependencies,
                self.dependencies.wf(),
                !self.dependencies.has_cycle(),
                same_layout(m0, self.cells@),
                m0 == old(self).cells@,
                order@.no_duplicates(),
                forall|x: Reference|
                    #![trigger order@.contains(x)]
                    #![trigger self.dependencies.contains_node(x)]
                    order@.contains(x) <==> self.dependencies.contains_node(x),
                forall|p: int, q: int|
                    0 <= p < order@.len() && 0 <= q < order@.len() && self.dependencies.edge(
                        #[trigger] order@[p],
                        #[trigger] order@[q],
                    ) ==> p < q,
                forall|j: int|
                    0 <= j < i && is_formula_cell(self.cells@, #[trigger] order@[j])
                        ==> self.cells@[order@[j]].value == spec_evaluate(
                        formula_of(self.cells@, order@[j]),
                        self.cells@,
                    ),
                forall|x: Reference|
                    #![trigger self.cells@[x]]
                    self.cells@.dom().contains(x) && !(order@.take(i as int).contains(x)
                        && is_formula_cell(self.cells@, x)) ==> self.cells@[x].value == m0[x].value,
            decreases n - i,
        {
            let rf = order[i];
            let computed = self.calculate_cell(rf);
            let ghost mi = self.cells@;
            match computed {
                None => {
                    proof {
                        lemma_take_extend_contains(order@, i as int);
                    }
                },
                Some(val) => {
                    proof {
                        assert(self.cells@.dom().contains(rf));
                    }
                    self.cells.set_value(rf, val);
                    proof {
                        let mn = self.cells@;
                        assert(order@.contains(rf)) by {
                            assert(order@[i as int] == rf);
                        }
                        lemma_take_extend_contains(order@, i as int);
                        // the updated cell is not among its own or any
                        // earlier cell's references
                        assert forall|j: int|
                            0 <= j <= i && is_formula_cell(mn, #[trigger] order@[j]) implies mn[order@[j]].value == spec_evaluate(formula_of(mn, order@[j]), mn) by {
                            let y = order@[j];
                            assert(is_formula_cell(mi, y));
                            let f = formula_of(mi, y);
                            assert(formula_of(mn, y) == f);
                            assert forall|u: Reference|
                                spec_references(f).contains(u) implies #[trigger] spec_cell_value(
                                mi,
                                u,
                            ) == spec_cell_value(mn, u) by {
                                assert(self.dependencies.edge(u, y));
                                self.dependencies.lemma_edge_endpoints(u, y);
                                assert(order@.contains(u));
                                let k = choose|k: int|
                                    0 <= k < order@.len() && order@[k] == u;
                                assert(self.dependencies.edge(order@[k], order@[j]));
                                assert(k < j);
                                assert(u != rf) by {
                                    if u == rf {
                                        assert(order@[k] == order@[i as int]);
                                        assert(k != i);
                                    }
                                }
                            }
                            lemma_evaluate_frame(f, mi, mn);
                            if j < i {
                                assert(mi[y].value == spec_evaluate(f, mi));
                                assert(y != rf) by {
                                    if y == rf {
                                        assert(order@[j] == order@[i as int]);
                                    }
                                }
                                assert(mn[y].value == mi[y].value);
                            } else {
                                assert(y == rf);
                                assert(mn[y].value == result_view(val));
                            }
                        }
                        assert(self.wf()) by {
                            assert forall|u: Reference, x: Reference|
                                #[trigger] self.dependencies.edge(u, x) implies is_formula_cell(
                                mn,
                                x,
                            ) && spec_references(formula_of(mn, x)).contains(u) by {
                                assert(is_formula_cell(mi, x));
                                assert(mn[x].content == mi[x].content);
                            }
                            assert forall|u: Reference, x: Reference|
                                is_formula_cell(mn, x) && #[trigger] spec_references(
                                formula_of(mn, x),
                            ).contains(u) implies self.dependencies.edge(u, x) by {
                                assert(is_formula_cell(mi, x));
                                assert(formula_of(mi, x) == formula_of(mn, x));
                            }
                            assert forall|x: Reference|
                                #[trigger] is_formula_cell(mn, x) implies self.dependencies.contains_node(x) by {
                                assert(is_formula_cell(mi, x));
                            }
                        }
                    }
                },
            }
            i = i + 1;
        }
        proof {
            assert(order@.take(n as int) =~= order@);
            assert forall|x: Reference|
                #[trigger] is_formula_cell(self.cells@, x) implies self.cells@[x].value
                == spec_evaluate(formula_of(self.cells@, x), self.cells@) by {
                assert(is_formula_cell(m0, x));
                assert(self.dependencies.contains_node(x));
                assert(order@.contains(x));
                let j = choose|j: int| 0 <= j < order@.len() && order@[j] == x;
                assert(is_formula_cell(self.cells@, order@[j]));
            }
        }
        Ok(())
    }

    /// Enters text into a cell. Formula text (beginning with `=`) is
    /// lexed and parsed: on success the cell holds the formula and its
    /// dependencies are rewired to exactly the formula's references; on
    /// failure the cell holds the parse error and depends on nothing.
    /// Other text is parsed as a literal, which never fails. Either way a
    /// full recalculation pass then recomputes every formula cell in
    /// dependency order; if the write introduced a dependency cycle the
    /// pass is abandoned, no value is recomputed, and the cycle is
    /// reported.
    pub fn enter(&mut self, reference: Reference, text: &str) -> (r: Result<(), EvaluationError>)
        requires
            old(self).wf(),
        ensures
            final(self).wf(),
            final(self).sheet().dom() == old(self).sheet().dom().insert(reference),
            final(self).sheet()[reference].raw_text == text@,
            final(self).sheet()[reference].content == spec_content_of(text@),
            forall|x: Reference|
                #![trigger final(self).sheet()[x]]
                x != reference && old(self).sheet().dom().contains(x) ==> final(self).sheet()[x].raw_text == old(self).sheet()[x].raw_text
                    && final(self).sheet()[x].content == old(self).sheet()[x].content,
            forall|u: Reference, x: Reference|
                #![trigger final(self).graph().edge(u, x)]
                #![trigger old(self).graph().edge(u, x)]
                final(self).graph().edge(u, x) <==> (if x == reference {
                    spec_references_of(text@).contains(u)
                } else {
                    old(self).graph().edge(u, x)
                }),
            r is Ok <==> !final(self).graph().has_cycle(),
            (match r {
                Ok(()) => {
                    &&& forall|x: Reference|
                        #[trigger] is_formula_cell(final(self).sheet(), x) ==> final(self).sheet()[x].value == spec_evaluate(
                            formula_of(final(self).sheet(), x),
                            final(self).sheet(),
                        )
                    &&& forall|x: Reference|
                        #![trigger final(self).sheet()[x]]
                        final(self).sheet().dom().contains(x) && !is_formula_cell(
                            final(self).sheet(),
                            x,
                        ) ==> final(self).sheet()[x].value == (if x == reference {
                            spec_entered_cell(
                                text@,
                                spec_prev_cell(old(self).sheet(), reference),
                            ).value
                        } else {
                            old(self).sheet()[x].value
                        })
                },
                Err(e) => e == EvaluationError::CyclicDependency && final(self).sheet() == old(self).sheet().insert(
                    reference,
                    spec_entered_cell(text@, spec_prev_cell(old(self).sheet(), reference)),
                ),
            }),
    {
        let ghost m0 = self.cells@;
        let ghost g0 = self.dependencies;
        let prev_value: EvaluationResult = match self.cells.get(reference) {
            Some(c) => match &c.value {
                Ok(v) => Ok(v.clone()),
                Err(e) => Err(*e),
            },
            None => Ok(Value::Empty),
        };
        proof {
            assert(result_view(prev_value) == spec_prev_cell(m0, reference).value);
        }
        let n = text.unicode_len();
        let is_formula = n > 0 && text.get_char(0) == '=';
        proof {
            assert(is_formula == is_formula_text(text@));
        }
        let raw = text.to_owned();
        if is_formula {
            match parse_formula(text) {
                Ok(expr) => {
                    let refs = expr.find_references();
                    self.dependencies.set_incoming_edges(reference, refs);
                    self.cells.insert(
                        reference,
                        Cell { raw_text: raw, content: Content::Formula(expr), value: prev_value },
                    );
                },
                Err(_) => {
                    self.dependencies.set_incoming_edges(reference, Vec::new());
                    self.cells.insert(
                        reference,
                        Cell {
                            raw_text: raw,
                            content: Content::Invalid(EvaluationError::ParseError),
                            value: Err(EvaluationError::ParseError),
                        },
                    );
                },
            }
        } else {
            self.dependencies.set_incoming_edges(reference, Vec::new());
            let v = Value::from_str(text);
            let v2 = v.clone();
            self.cells.insert(
                reference,
                Cell { raw_text: raw, content: Content::Literal(v), value: Ok(v2) },
            );
        }
        proof {
            let entered = spec_entered_cell(text@, spec_prev_cell(m0, reference));
            assert(self.cells@ == m0.insert(reference, entered)) by {
                assert(self.cells@ =~= m0.insert(reference, entered));
            }
            assert forall|u: Reference, x: Reference| #[trigger] self.dependencies.edge(u, x)
                <==> (if x == reference {
                spec_references_of(text@).contains(u)
            } else {
                g0.edge(u, x)
            }) by {}
            assert(self.wf()) by {
                let m1 = self.cells@;
                assert forall|u: Reference, x: Reference|
                    #[trigger] self.dependencies.edge(u, x) implies is_formula_cell(m1, x)
                    && spec_references(formula_of(m1, x)).contains(u) by {
                    if x == reference {
                        assert(spec_references_of(text@).contains(u));
                        assert(m1[x].content == spec_content_of(text@));
                    } else {
                        assert(g0.edge(u, x));
                        assert(is_formula_cell(m0, x));
                        assert(m1[x] == m0[x]);
                    }
                }
                assert forall|u: Reference, x: Reference|
                    is_formula_cell(m1, x) && #[trigger] spec_references(
                    formula_of(m1, x),
                ).contains(u) implies self.dependencies.edge(u, x) by {
                    if x == reference {
                        assert(m1[x].content == spec_content_of(text@));
                        assert(spec_references_of(text@).contains(u));
                    } else {
                        assert(m1[x] == m0[x]);
                        assert(is_formula_cell(m0, x));
                        assert(spec_references(formula_of(m0, x)).contains(u));
                        assert(g0.edge(u, x));
                    }
                }
                assert forall|x: Reference| #[trigger] is_formula_cell(m1, x) implies self.dependencies.contains_node(x) by {
                    if x != reference {
                        assert(m1[x] == m0[x]);
                        assert(is_formula_cell(m0, x));
                        assert(g0.contains_node(x));
                    }
                }
            }
        }
        let ghost m1 = self.cells@;
        let ghost g1 = self.dependencies;
        let outcome = self.recalculate();
        proof {
            assert(final(self).sheet().dom() =~= old(self).sheet().dom().insert(reference));
            if outcome is Err {
                assert(self.cells@ == m1);
                assert(self.cells@ =~= m0.insert(
                    reference,
                    spec_entered_cell(text@, spec_prev_cell(m0, reference)),
                ));
            }
        }
        outcome
    }
}

proof fn lemma_take_extend_contains(s: Seq<Reference>, k: int)
    requires
        0 <= k < s.len(),
    ensures
        forall|a: Reference|
            #![trigger s.take(k + 1).contains(a)]
            s.take(k + 1).contains(a) <==> s.take(k).contains(a) || a == s[k],
{
    assert forall|a: Reference| #[trigger] s.take(k + 1).contains(a) <==> (s.take(k).contains(a)
        || a == s[k]) by {
        if s.take(k + 1).contains(a) {
            let j = choose|j: int| 0 <= j < k + 1 && #[trigger] s.take(k + 1)[j] == a;
            if j < k {
                assert(s.take(k)[j] == a);
            }
        }
        if s.take(k).contains(a) {
            let j = choose|j: int| 0 <= j < k && #[trigger] s.take(k)[j] == a;
            assert(s.take(k + 1)[j] == a);
        }
        if a == s[k] {
            assert(s.take(k + 1)[k] == a);
        }
    }
}

} // verus!
