//! Access rules guarding a workload's control interface.

use vstd::prelude::*;

verus! {

/// The rules deciding which operations a workload may request through
/// its control interface.
///
/// Two authorizers grant the same set of operations exactly when their
/// allow and deny rules agree; that comparison decides whether an
/// updated workload may keep its control interface.
#[derive(Clone, Debug, PartialEq, Eq)]
pub struct Authorizer {
    allow_rules: Vec<String>,
    deny_rules: Vec<String>,
}

/// Mathematical model of an [`Authorizer`].
pub struct AuthorizerView {
    pub allow_rules: Seq<Seq<char>>,
    pub deny_rules: Seq<Seq<char>>,
}

impl View for Authorizer {
    type V = AuthorizerView;

    closed spec fn view(&self) -> AuthorizerView {
        AuthorizerView { allow_rules: self.allow_rules.deep_view(), deny_rules: self.deny_rules.deep_view() }
    }
}

impl DeepView for Authorizer {
    type V = AuthorizerView;

    open spec fn deep_view(&self) -> AuthorizerView {
        self.view()
    }
}

/// Whether the two rule lists hold the same rules in the same order.
fn rule_lists_equal(a: &Vec<String>, b: &Vec<String>) -> (r: bool)
    ensures
        r == (a.deep_view() == b.deep_view()),
{
    if a.len() != b.len() {
        assert(a.deep_view().len() != b.deep_view().len());
        return false;
    }
    let n = a.len();
    let mut i: usize = 0;
    while i < n
        invariant
            n == a.len() == b.len(),
            i <= n,
            forall|k: int| 0 <= k < i ==> a.deep_view()[k] == b.deep_view()[k],
        decreases n - i,
    {
        if a[i] != b[i] {
            assert(a.deep_view()[i as int] != b.deep_view()[i as int]);
            return false;
        }
        i += 1;
    }
    assert(a.deep_view() =~= b.deep_view());
    true
}

impl Authorizer {
    pub fn new(allow_rules: Vec<String>, deny_rules: Vec<String>) -> (r: Authorizer)
        ensures
            r@.allow_rules == allow_rules.deep_view(),
            r@.deny_rules == deny_rules.deep_view(),
    {
        Authorizer { allow_rules, deny_rules }
    }

    /// Whether the two authorizers would grant the same set of
    /// operations: their allow and deny rules agree.
    pub fn grants_same_as(&self, other: &Authorizer) -> (r: bool)
        ensures
            r == (self@ == other@),
    {
        let r = rule_lists_equal(&self.allow_rules, &other.allow_rules)
            && rule_lists_equal(&self.deny_rules, &other.deny_rules);
        if r {
            assert(self@ == other@);
        }
        r
    }
}

} // verus!
