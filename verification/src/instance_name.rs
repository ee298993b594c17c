//! Workload instance names: the triple that identifies one concrete
//! workload instance on one agent.

use vstd::prelude::*;

verus! {

/// Identity of one concrete workload instance.
///
/// Two specs with the same workload name but differing configuration
/// hash are different instances; an update conceptually deletes the
/// old instance and creates the new one.
#[derive(Clone, Debug, PartialEq, Eq)]
pub struct WorkloadInstanceName {
    workload_name: String,
    config_hash: String,
    agent_name: String,
}

/// Mathematical model of a [`WorkloadInstanceName`].
pub struct WorkloadInstanceNameView {
    pub workload_name: Seq<char>,
    pub config_hash: Seq<char>,
    pub agent_name: Seq<char>,
}

impl View for WorkloadInstanceName {
    type V = WorkloadInstanceNameView;

    closed spec fn view(&self) -> WorkloadInstanceNameView {
        WorkloadInstanceNameView {
            workload_name: self.workload_name@,
            config_hash: self.config_hash@,
            agent_name: self.agent_name@,
        }
    }
}

impl DeepView for WorkloadInstanceName {
    type V = WorkloadInstanceNameView;

    open spec fn deep_view(&self) -> WorkloadInstanceNameView {
        self.view()
    }
}

impl WorkloadInstanceName {
    /// Starts building an instance name; unset parts stay empty.
    pub fn builder() -> (r: WorkloadInstanceNameBuilder)
        ensures
            r@.workload_name == Seq::<char>::empty(),
            r@.config_hash == Seq::<char>::empty(),
            r@.agent_name == Seq::<char>::empty(),
    {
        WorkloadInstanceNameBuilder {
            inner: WorkloadInstanceName {
                workload_name: String::new(),
                config_hash: String::new(),
                agent_name: String::new(),
            },
        }
    }

    pub fn workload_name(&self) -> (r: &String)
        ensures
            r@ == self@.workload_name,
    {
        &self.workload_name
    }

    pub fn config_hash(&self) -> (r: &String)
        ensures
            r@ == self@.config_hash,
    {
        &self.config_hash
    }

    pub fn agent_name(&self) -> (r: &String)
        ensures
            r@ == self@.agent_name,
    {
        &self.agent_name
    }

    /// Deep copy; the model value is unchanged.
    pub fn duplicate(&self) -> (r: WorkloadInstanceName)
        ensures
            r@ == self@,
    {
        WorkloadInstanceName {
            workload_name: self.workload_name.clone(),
            config_hash: self.config_hash.clone(),
            agent_name: self.agent_name.clone(),
        }
    }

    /// Whether the two names identify the same instance: all three
    /// parts agree.
    pub fn matches(&self, other: &WorkloadInstanceName) -> (r: bool)
        ensures
            r == (self@ == other@),
    {
        let r = self.workload_name == other.workload_name
            && self.config_hash == other.config_hash
            && self.agent_name == other.agent_name;
        if r {
            assert(self@ == other@);
        }
        r
    }

    /// Whether the two names share their workload name, whatever the
    /// configuration hash or agent.
    pub fn same_workload_name(&self, other: &WorkloadInstanceName) -> (r: bool)
        ensures
            r == (self@.workload_name == other@.workload_name),
    {
        self.workload_name == other.workload_name
    }
}

/// Step-by-step constructor for [`WorkloadInstanceName`].
pub struct WorkloadInstanceNameBuilder {
    inner: WorkloadInstanceName,
}

impl View for WorkloadInstanceNameBuilder {
    type V = WorkloadInstanceNameView;

    closed spec fn view(&self) -> WorkloadInstanceNameView {
        self.inner@
    }
}

impl WorkloadInstanceNameBuilder {
    pub fn workload_name(self, workload_name: &str) -> (r: WorkloadInstanceNameBuilder)
        ensures
            r@ == (WorkloadInstanceNameView { workload_name: workload_name@, ..self@ }),
    {
        WorkloadInstanceNameBuilder {
            inner: WorkloadInstanceName {
                workload_name: workload_name.to_string(),
                ..self.inner
            },
        }
    }

    pub fn config_hash(self, config_hash: &str) -> (r: WorkloadInstanceNameBuilder)
        ensures
            r@ == (WorkloadInstanceNameView { config_hash: config_hash@, ..self@ }),
    {
        WorkloadInstanceNameBuilder {
            inner: WorkloadInstanceName { config_hash: config_hash.to_string(), ..self.inner },
        }
    }

    pub fn agent_name(self, agent_name: &str) -> (r: WorkloadInstanceNameBuilder)
        ensures
            r@ == (WorkloadInstanceNameView { agent_name: agent_name@, ..self@ }),
    {
        WorkloadInstanceNameBuilder {
            inner: WorkloadInstanceName { agent_name: agent_name.to_string(), ..self.inner },
        }
    }

    pub fn build(self) -> (r: WorkloadInstanceName)
        ensures
            r@ == self@,
    {
        self.inner
    }
}

} // verus!
