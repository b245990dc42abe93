//! The typing context a downstream checker works in: an association of
//! variable names to the texts of their types, keys unique, in insertion
//! order.

use vstd::prelude::*;

use crate::grammar::assoc_get;
use crate::grammar::assoc_idx;
use crate::grammar::lemma_assoc_idx;

verus! {

/// A typing context mapping variable names to type expressions, keys unique,
/// in insertion order.
#[derive(Debug, PartialEq)]
pub struct TypingContext {
    pub bindings: Vec<(String, String)>,
}

impl TypingContext {
    /// An empty typing context.
    pub fn new() -> (r: TypingContext)
        ensures
            r.bindings@.len() == 0,
    {
        TypingContext { bindings: Vec::new() }
    }

    /// Record that a variable has a type: a variable already bound is
    /// rebound in place, a new variable is appended, and every other binding
    /// stays as it was.
    pub fn bind(&mut self, variable: String, type_expr: String)
        ensures
            final(self).bindings.deep_view() == {
                let i = assoc_idx(old(self).bindings.deep_view(), variable@);
                if i < 0 {
                    old(self).bindings.deep_view().push((variable@, type_expr@))
                } else {
                    old(self).bindings.deep_view().update(i, (variable@, type_expr@))
                }
            },
    {
        proof {
            lemma_assoc_idx(self.bindings.deep_view(), variable@);
        }
        let n = self.bindings.len();
        for i in 0..n
            invariant
                n == self.bindings@.len(),
                self.bindings == old(self).bindings,
                forall|k: int| 0 <= k < i ==> self.bindings@[k].0@ != variable@,
        {
            if crate::strs::str_eq(self.bindings[i].0.as_str(), variable.as_str()) {
                proof {
                    assert(self.bindings.deep_view()[i as int].0 == variable@);
                    assert(assoc_idx(self.bindings.deep_view(), variable@) == i as int) by {
                        lemma_assoc_idx(self.bindings.deep_view(), variable@);
                        assert(forall|k: int|
                            0 <= k < i ==> self.bindings.deep_view()[k].0
                                != variable@);
                    }
                }
                let ghost old_dv = self.bindings.deep_view();
                self.bindings.set(i, (variable, type_expr));
                proof {
                    assert(self.bindings.deep_view() =~~= old_dv.update(
                        i as int,
                        self.bindings.deep_view()[i as int],
                    ));
                }
                return ;
            }
        }
        proof {
            assert(forall|k: int|
                0 <= k < self.bindings@.len() ==> self.bindings.deep_view()[k].0 != variable@);
            assert(assoc_idx(self.bindings.deep_view(), variable@) == -1) by {
                lemma_assoc_idx(self.bindings.deep_view(), variable@);
            }
        }
        let ghost old_dv = self.bindings.deep_view();
        self.bindings.push((variable, type_expr));
        proof {
            assert(self.bindings.deep_view() =~~= old_dv.push(
                self.bindings.deep_view()[self.bindings@.len() - 1],
            ));
        }
    }

    /// The type bound to a variable: the value under the first matching key,
    /// or nothing when the variable is unbound.
    pub fn lookup(&self, variable: &str) -> (r: Option<&String>)
        ensures
            match r {
                Some(t) => assoc_get(self.bindings.deep_view(), variable@) == Some(t@),
                None => assoc_get(self.bindings.deep_view(), variable@) is None,
            },
    {
        proof {
            lemma_assoc_idx(self.bindings.deep_view(), variable@);
        }
        let n = self.bindings.len();
        for i in 0..n
            invariant
                n == self.bindings@.len(),
                forall|k: int| 0 <= k < i ==> self.bindings@[k].0@ != variable@,
        {
            if crate::strs::str_eq(self.bindings[i].0.as_str(), variable) {
                proof {
                    assert(self.bindings.deep_view()[i as int].0 == variable@);
                    assert(assoc_idx(self.bindings.deep_view(), variable@) == i as int) by {
                        lemma_assoc_idx(self.bindings.deep_view(), variable@);
                        assert(forall|k: int|
                            0 <= k < i ==> self.bindings.deep_view()[k].0
                                != variable@);
                    }
                }
                return Some(&self.bindings[i].1);
            }
        }
        proof {
            assert(forall|k: int|
                0 <= k < self.bindings@.len() ==> self.bindings.deep_view()[k].0 != variable@);
            assert(assoc_idx(self.bindings.deep_view(), variable@) == -1) by {
                lemma_assoc_idx(self.bindings.deep_view(), variable@);
            }
        }
        None
    }
}

} // verus!
