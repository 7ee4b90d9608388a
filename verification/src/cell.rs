//! Cells and the sheet: an ordered mapping from references to cells,
//! iterated in ascending key order for reproducible output.

use vstd::prelude::*;
use crate::ast::Expr;
use crate::reference::Reference;
use crate::value::{result_view, EvaluationError, EvaluationResult, Value, ValueModel};

verus! {

/// What a cell's last-entered text parsed into.
#[derive(Debug)]
pub enum Content {
    /// Literal (non-formula) text, parsed into a value.
    Literal(Value),
    /// A formula that parsed successfully.
    Formula(Expr),
    /// A formula that failed to lex or parse.
    Invalid(EvaluationError),
}

/// The mathematical model of a [`Content`].
pub enum ContentModel {
    Literal(ValueModel),
    Formula(Expr),
    Invalid(EvaluationError),
}

impl View for Content {
    type V = ContentModel;

    open spec fn view(&self) -> ContentModel {
        match self {
            Content::Literal(v) => ContentModel::Literal(v@),
            Content::Formula(e) => ContentModel::Formula(*e),
            Content::Invalid(e) => ContentModel::Invalid(*e),
        }
    }
}

/// One addressable slot in the grid: the text as entered, what it parsed
/// into, and the computed value.
#[derive(Debug)]
pub struct Cell {
    /// The last-entered text, kept verbatim whether or not it parsed.
    pub raw_text: String,
    pub content: Content,
    pub value: EvaluationResult,
}

/// The mathematical model of a [`Cell`].
pub struct CellModel {
    pub raw_text: Seq<char>,
    pub content: ContentModel,
    pub value: Result<ValueModel, EvaluationError>,
}

impl View for Cell {
    type V = CellModel;

    open spec fn view(&self) -> CellModel {
        CellModel { raw_text: self.raw_text@, content: self.content@, value: result_view(self.value) }
    }
}

/// The state of a cell that was never written: blank text, the empty value.
pub open spec fn spec_default_cell() -> CellModel {
    CellModel {
        raw_text: Seq::empty(),
        content: ContentModel::Literal(ValueModel::Empty),
        value: Ok(ValueModel::Empty),
    }
}

impl Cell {
    /// The last-entered text, regardless of parse success.
    pub fn text(&self) -> (t: &str)
        ensures
            t@ == self@.raw_text,
    {
        self.raw_text.as_str()
    }

    /// The parsed formula, if this cell holds one.
    pub fn formula(&self) -> (o: Option<&Expr>)
        ensures
            o is Some <==> self@.content is Formula,
            o matches Some(e) ==> self@.content == ContentModel::Formula(*e),
    {
        match &self.content {
            Content::Formula(e) => Some(e),
            _ => None,
        }
    }
}

impl Default for Cell {
    /// A blank cell holding the empty value.
    fn default() -> (c: Cell)
        ensures
            c@ == spec_default_cell(),
    {
        let c = Cell {
            raw_text: String::new(),
            content: Content::Literal(Value::Empty),
            value: Ok(Value::Empty),
        };
        proof {
            assert(c@.raw_text =~= spec_default_cell().raw_text);
        }
        c
    }
}

/// An ordered mapping from references to cells, kept sorted by the
/// references' sort keys.
pub struct Sheet {
    entries: Vec<(Reference, Cell)>,
}

impl View for Sheet {
    type V = Map<Reference, CellModel>;

    closed spec fn view(&self) -> Map<Reference, CellModel> {
        Map::new(
            |r: Reference| self.spec_contains(r),
            |r: Reference| self.entries@[self.spec_index_of(r)].1@,
        )
    }
}

impl Sheet {
    spec fn len(self) -> int {
        self.entries@.len() as int
    }

    spec fn spec_contains(&self, r: Reference) -> bool {
        exists|i: int| 0 <= i < self.len() && self.entries@[i].0 == r
    }

    spec fn spec_index_of(&self, r: Reference) -> int {
        choose|i: int| 0 <= i < self.len() && self.entries@[i].0 == r
    }

    /// The representation invariant: entries are strictly sorted by key.
    pub closed spec fn wf(self) -> bool {
        forall|i: int, j: int|
            0 <= i < j < self.len() ==> (#[trigger] self.entries@[i]).0.spec_key() < (
            #[trigger] self.entries@[j]).0.spec_key()
    }

    proof fn lemma_entry(self, i: int)
        requires
            self.wf(),
            0 <= i < self.len(),
        ensures
            self@.dom().contains(self.entries@[i].0),
            self@[self.entries@[i].0] == self.entries@[i].1@,
    {
        let r = self.entries@[i].0;
        assert(self.spec_contains(r));
        let j = self.spec_index_of(r);
        assert(0 <= j < self.len() && self.entries@[j].0 == r);
        if i != j {
            if i < j {
                assert(self.entries@[i].0.spec_key() < self.entries@[j].0.spec_key());
            } else {
                assert(self.entries@[j].0.spec_key() < self.entries@[i].0.spec_key());
            }
            assert(false);
        }
    }

    /// An empty sheet.
    pub fn new() -> (s: Sheet)
        ensures
            s.wf(),
            s@ == Map::<Reference, CellModel>::empty(),
    {
        let s = Sheet { entries: Vec::new() };
        proof {
            assert(s@ =~= Map::<Reference, CellModel>::empty());
        }
        s
    }

    /// Looks a cell up; an absent reference is a valid blank state.
    pub fn get(&self, reference: Reference) -> (o: Option<&Cell>)
        requires
            self.wf(),
        ensures
            o is Some <==> self@.dom().contains(reference),
            o matches Some(c) ==> c@ == self@[reference],
    {
        let n = self.entries.len();
        let mut i: usize = 0;
        while i < n
            invariant
                i <= n == self.entries@.len(),
                self.wf(),
                forall|j: int| 0 <= j < i ==> (#[trigger] self.entries@[j]).0 != reference,
            decreases n - i,
        {
            if self.entries[i].0 == reference {
                proof {
                    self.lemma_entry(i as int);
                }
                return Some(&self.entries[i].1);
            }
            i = i + 1;
        }
        proof {
            if self.spec_contains(reference) {
                let j = self.spec_index_of(reference);
                assert(self.entries@[j].0 == reference);
            }
        }
        None
    }

    /// Inserts or replaces the cell stored under `reference`.
    pub fn insert(&mut self, reference: Reference, cell: Cell)
        requires
            old(self).wf(),
        ensures
            final(self).wf(),
            final(self)@ == old(self)@.insert(reference, cell@),
    {
        let ghost s0 = *self;
        let n = self.entries.len();
        let key = reference.key();
        let mut i: usize = 0;
        while i < n && self.entries[i].0.key() < key
            invariant
                i <= n == self.entries@.len(),
                *self == s0,
                key == reference.spec_key(),
                forall|j: int| 0 <= j < i ==> (#[trigger] self.entries@[j]).0.spec_key() < key,
            decreases n - i,
        {
            i = i + 1;
        }
        proof {
            assert(i < self.len() ==> self.entries@[i as int].0.spec_key() >= key);
        }
        if i < n && self.entries[i].0 == reference {
            self.entries.remove(i);
            self.entries.insert(i, (reference, cell));
            proof {
                assert(self.entries@ =~= s0.entries@.update(i as int, (reference, cell)));
            }
        } else {
            proof {
                if s0.spec_contains(reference) {
                    let j = s0.spec_index_of(reference);
                    assert(s0.entries@[j].0 == reference);
                    if j < i {
                        assert(s0.entries@[j].0.spec_key() < key);
                    } else if j > i {
                        assert(i < s0.len());
                        assert(s0.entries@[i as int].0.spec_key() < s0.entries@[j].0.spec_key());
                    } else {
                        assert(s0.entries@[i as int].0.spec_key() == key);
                    }
                    assert(false);
                }
            }
            self.entries.insert(i, (reference, cell));
        }
        proof {
            let se = self.entries@;
            let oe = s0.entries@;
            assert(self.wf()) by {
                assert forall|p: int, q: int| 0 <= p < q < se.len() implies (
                #[trigger] se[p]).0.spec_key() < (#[trigger] se[q]).0.spec_key() by {
                    if oe.len() == se.len() {
                        // replacement at i
                        if p != i && q != i {
                            assert(se[p] == oe[p] && se[q] == oe[q]);
                        } else if p == i {
                            assert(se[q] == oe[q]);
                            assert(oe[i as int].0.spec_key() == key);
                        } else {
                            assert(se[p] == oe[p]);
                            assert(oe[i as int].0.spec_key() == key);
                        }
                    } else {
                        // insertion at i
                        if p < i && q < i {
                            assert(se[p] == oe[p] && se[q] == oe[q]);
                        } else if p < i && q == i {
                            assert(se[p] == oe[p]);
                        } else if p < i && q > i {
                            assert(se[p] == oe[p] && se[q] == oe[q - 1]);
                        } else if p == i {
                            assert(se[q] == oe[q - 1]);
                            assert(q - 1 >= i);
                        } else {
                            assert(se[p] == oe[p - 1] && se[q] == oe[q - 1]);
                        }
                    }
                }
            }
            assert forall|x: Reference| #[trigger] self.spec_contains(x) <==> (s0.spec_contains(x)
                || x == reference) by {
                if self.spec_contains(x) {
                    let j = choose|j: int| 0 <= j < self.len() && self.entries@[j].0 == x;
                    if oe.len() == se.len() {
                        if j != i {
                            assert(oe[j].0 == x);
                        }
                    } else {
                        if j < i {
                            assert(oe[j].0 == x);
                        } else if j > i {
                            assert(oe[j - 1].0 == x);
                        }
                    }
                }
                if s0.spec_contains(x) {
                    let j = choose|j: int| 0 <= j < s0.len() && oe[j].0 == x;
                    if oe.len() == se.len() {
                        if j != i {
                            assert(se[j].0 == x);
                        } else {
                            assert(x == reference);
                        }
                    } else {
                        if j < i {
                            assert(se[j].0 == x);
                        } else {
                            assert(se[j + 1].0 == x);
                        }
                    }
                }
                if x == reference {
                    assert(se[i as int].0 == x);
                }
            }
            assert(final(self)@ =~= old(self)@.insert(reference, cell@)) by {
                assert forall|x: Reference| self@.dom().contains(x) implies self@[x] == (if x
                    == reference {
                    cell@
                } else {
                    s0@[x]
                }) by {
                    let j = self.spec_index_of(x);
                    assert(0 <= j < self.len() && se[j].0 == x);
                    if x == reference {
                        if j != i {
                            if j < i {
                                assert(se[j].0.spec_key() < se[i as int].0.spec_key());
                            } else {
                                assert(se[i as int].0.spec_key() < se[j].0.spec_key());
                            }
                            assert(false);
                        }
                        assert(self@[x] == cell@);
                    } else {
                        assert(se[j].0 != reference);
                        if oe.len() == se.len() {
                            assert(j != i);
                            assert(se[j] == oe[j]);
                            s0.lemma_entry(j);
                        } else {
                            if j < i {
                                assert(se[j] == oe[j]);
                                s0.lemma_entry(j);
                            } else {
                                assert(j > i);
                                assert(se[j] == oe[j - 1]);
                                s0.lemma_entry(j - 1);
                            }
                        }
                    }
                }
            }
        }
    }

    /// Overwrites the computed value of a present cell, leaving its text
    /// and content untouched.
    pub fn set_value(&mut self, reference: Reference, value: EvaluationResult)
        requires
            old(self).wf(),
            old(self)@.dom().contains(reference),
        ensures
            final(self).wf(),
            final(self)@ == old(self)@.insert(
                reference,
                CellModel {
                    raw_text: old(self)@[reference].raw_text,
                    content: old(self)@[reference].content,
                    value: result_view(value),
                },
            ),
    {
        let ghost s0 = *self;
        let n = self.entries.len();
        let mut i: usize = 0;
        let mut found = false;
        while i < n && !found
            invariant
                i <= n == self.entries@.len(),
                *self == s0,
                !found ==> forall|j: int|
                    0 <= j < i ==> (#[trigger] self.entries@[j]).0 != reference,
                found ==> i < n && self.entries@[i as int].0 == reference,
            decreases n - i + (if found { 0int } else { 1int }),
        {
            if self.entries[i].0 == reference {
                found = true;
            } else {
                i = i + 1;
            }
        }
        proof {
            if !found {
                assert(s0.spec_contains(reference));
                let j = s0.spec_index_of(reference);
                assert(s0.entries@[j].0 == reference);
                assert(false);
            }
        }
        let mut entry = self.entries.remove(i);
        entry.1.value = value;
        self.entries.insert(i, entry);
        proof {
            let se = self.entries@;
            let oe = s0.entries@;
            assert(se.len() == oe.len());
            assert(forall|j: int| 0 <= j < se.len() && j != i ==> se[j] == oe[j]);
            assert(se[i as int].0 == reference);
            assert(se[i as int].1@ == CellModel {
                raw_text: oe[i as int].1@.raw_text,
                content: oe[i as int].1@.content,
                value: result_view(value),
            });
            assert(self.wf()) by {
                assert forall|p: int, q: int| 0 <= p < q < se.len() implies (
                #[trigger] se[p]).0.spec_key() < (#[trigger] se[q]).0.spec_key() by {
                    assert(se[p].0 == oe[p].0 && se[q].0 == oe[q].0);
                }
            }
            s0.lemma_entry(i as int);
            assert forall|x: Reference| #[trigger] self.spec_contains(x) <==> s0.spec_contains(
                x,
            ) by {
                if self.spec_contains(x) {
                    let j = choose|j: int| 0 <= j < self.len() && se[j].0 == x;
                    assert(oe[j].0 == x);
                }
                if s0.spec_contains(x) {
                    let j = choose|j: int| 0 <= j < s0.len() && oe[j].0 == x;
                    assert(se[j].0 == x);
                }
            }
            assert(final(self)@ =~= old(self)@.insert(
                reference,
                CellModel {
                    raw_text: old(self)@[reference].raw_text,
                    content: old(self)@[reference].content,
                    value: result_view(value),
                },
            )) by {
                assert forall|x: Reference| self@.dom().contains(x) implies self@[x] == (if x
                    == reference {
                    CellModel {
                        raw_text: s0@[reference].raw_text,
                        content: s0@[reference].content,
                        value: result_view(value),
                    }
                } else {
                    s0@[x]
                }) by {
                    let j = self.spec_index_of(x);
                    assert(0 <= j < self.len() && se[j].0 == x);
                    if j == i {
                        assert(x == reference);
                        assert(self@[x] == se[i as int].1@);
                    } else {
                        assert(se[j] == oe[j]);
                        assert(x != reference) by {
                            if x == reference {
                                if j < i {
                                    assert(se[j].0.spec_key() < se[i as int].0.spec_key());
                                } else {
                                    assert(se[i as int].0.spec_key() < se[j].0.spec_key());
                                }
                            }
                        }
                        s0.lemma_entry(j);
                        assert(self@[x] == se[j].1@);
                    }
                }
            }
        }
    }

    /// The entries in ascending key order, for display and export.
    pub fn entries(&self) -> (es: &Vec<(Reference, Cell)>)
        requires
            self.wf(),
        ensures
            forall|i: int, j: int|
                0 <= i < j < es@.len() ==> (#[trigger] es@[i]).0.spec_key() < (
                #[trigger] es@[j]).0.spec_key(),
            forall|i: int|
                0 <= i < es@.len() ==> self@.dom().contains((#[trigger] es@[i]).0) && es@[i].1@
                    == self@[es@[i].0],
            forall|x: Reference|
                #[trigger] self@.dom().contains(x) ==> exists|i: int|
                    0 <= i < es@.len() && es@[i].0 == x,
    {
        proof {
            assert forall|i: int|
                0 <= i < self.entries@.len() implies self@.dom().contains(
                (#[trigger] self.entries@[i]).0,
            ) && self.entries@[i].1@ == self@[self.entries@[i].0] by {
                self.lemma_entry(i);
            }
        }
        &self.entries
    }
}

} // verus!
