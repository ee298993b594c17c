//! Bookkeeping for a workload's control interface: where its pipes
//! live, who may use it, and how to reach the server.

use vstd::prelude::*;

use crate::authorizer::Authorizer;
use crate::instance_name::{WorkloadInstanceName, WorkloadInstanceNameView};
use crate::messages::ToServer;

verus! {

/// The location of one workload's control-interface pipes.
#[derive(Clone, Debug, PartialEq, Eq)]
pub struct ControlInterfacePath {
    path: String,
}

impl View for ControlInterfacePath {
    type V = Seq<char>;

    closed spec fn view(&self) -> Seq<char> {
        self.path@
    }
}

impl ControlInterfacePath {
    pub fn new(path: String) -> (r: ControlInterfacePath)
        ensures
            r@ == path@,
    {
        ControlInterfacePath { path }
    }

    pub fn as_str(&self) -> (r: &String)
        ensures
            r@ == self@,
    {
        &self.path
    }

    /// Whether both name the same location.
    pub fn same_location(&self, other: &ControlInterfacePath) -> (r: bool)
        ensures
            r == (self@ == other@),
    {
        self.path == other.path
    }
}

/// The mpsc sender type of the async runtime the agent runs on; the
/// control interface hands clones of it to its pipe tasks.
#[verifier::external_type_specification]
#[verifier::external_body]
#[verifier::reject_recursive_types(T)]
pub struct ExSender<T>(tokio::sync::mpsc::Sender<T>);

/// Relies on `tokio::sync::mpsc::Sender::clone`: the clone is another
/// handle on the very same channel, so as a capability it is the same
/// value as the sender it was cloned from.
pub assume_specification<T>[ <tokio::sync::mpsc::Sender<T> as Clone>::clone ](
    sender: &tokio::sync::mpsc::Sender<T>,
) -> (r: tokio::sync::mpsc::Sender<T>)
    ensures
        r == *sender,
;

/// A running control interface, as the update path sees it: where its
/// pipes are and which rules guard it.
pub struct ControlInterface {
    api_location: ControlInterfacePath,
    authorizer: Authorizer,
}

impl ControlInterface {
    pub fn new(api_location: ControlInterfacePath, authorizer: Authorizer) -> (r: ControlInterface)
        ensures
            r.spec_api_location() == api_location@,
            r.spec_authorizer() == authorizer@,
    {
        ControlInterface { api_location, authorizer }
    }

    pub closed spec fn spec_api_location(&self) -> Seq<char> {
        self.api_location@
    }

    pub closed spec fn spec_authorizer(&self) -> crate::authorizer::AuthorizerView {
        self.authorizer@
    }

    pub fn get_api_location(&self) -> (r: &ControlInterfacePath)
        ensures
            r@ == self.spec_api_location(),
    {
        &self.api_location
    }

    pub fn get_authorizer(&self) -> (r: &Authorizer)
        ensures
            r@ == self.spec_authorizer(),
    {
        &self.authorizer
    }
}

/// Everything needed to (re)build one workload's control interface:
/// the pipes location, the channel towards the server, the instance
/// it belongs to and the rules guarding it.
pub struct ControlInterfaceInfo {
    control_interface_path: ControlInterfacePath,
    workload_instance_name: WorkloadInstanceName,
    control_interface_to_server_sender: tokio::sync::mpsc::Sender<ToServer>,
    authorizer: Authorizer,
}

impl ControlInterfaceInfo {
    pub fn new(
        control_interface_path: ControlInterfacePath,
        control_interface_to_server_sender: tokio::sync::mpsc::Sender<ToServer>,
        workload_instance_name: &WorkloadInstanceName,
        authorizer: Authorizer,
    ) -> (r: ControlInterfaceInfo)
        ensures
            r.spec_path() == control_interface_path@,
            r.spec_instance_name() == workload_instance_name@,
            r.spec_sender() == control_interface_to_server_sender,
            r.spec_authorizer() == authorizer@,
    {
        ControlInterfaceInfo {
            control_interface_path,
            workload_instance_name: workload_instance_name.duplicate(),
            control_interface_to_server_sender,
            authorizer,
        }
    }

    pub closed spec fn spec_path(&self) -> Seq<char> {
        self.control_interface_path@
    }

    pub closed spec fn spec_instance_name(&self) -> WorkloadInstanceNameView {
        self.workload_instance_name@
    }

    pub closed spec fn spec_sender(&self) -> tokio::sync::mpsc::Sender<ToServer> {
        self.control_interface_to_server_sender
    }

    pub closed spec fn spec_authorizer(&self) -> crate::authorizer::AuthorizerView {
        self.authorizer@
    }

    pub fn get_control_interface_path(&self) -> (r: &ControlInterfacePath)
        ensures
            r@ == self.spec_path(),
    {
        &self.control_interface_path
    }

    /// A fresh handle on the channel towards the server.
    pub fn get_to_server_sender(&self) -> (r: tokio::sync::mpsc::Sender<ToServer>)
        ensures
            r == self.spec_sender(),
    {
        self.control_interface_to_server_sender.clone()
    }

    pub fn get_instance_name(&self) -> (r: &WorkloadInstanceName)
        ensures
            r@ == self.spec_instance_name(),
    {
        &self.workload_instance_name
    }

    /// Hands the access rules out, consuming the info.
    pub fn move_authorizer(self) -> (r: Authorizer)
        ensures
            r@ == self.spec_authorizer(),
    {
        self.authorizer
    }

    /// Whether a running control interface may be kept across an
    /// update: it must sit at the same location and grant the same
    /// set of operations.
    pub fn has_same_configuration(&self, other: &ControlInterface) -> (r: bool)
        ensures
            r == (self.spec_path() == other.spec_api_location() && self.spec_authorizer()
                == other.spec_authorizer()),
    {
        if !self.control_interface_path.same_location(other.get_api_location()) {
            return false;
        }
        let self_authorizer = &self.authorizer;
        let other_authorizer = other.get_authorizer();
        self_authorizer.grants_same_as(other_authorizer)
    }
}

} // verus!
