//! What a server knows of the paths on which clients connect.

use vstd::prelude::*;
use crate::types::permissiontype::PermissionType;
use crate::units::table::Table;

verus! {

/// The mathematical value of a `ServerInfo`.
pub struct ServerInfoModel {
    pub path_subgraph_map: Map<Seq<char>, Seq<char>>,
    pub path_permission_map: Map<Seq<char>, PermissionType>,
}

/// What the server knows of each path: the description of the subgraph that
/// is sent to a client there, and what a connection there may do.
#[derive(Debug)]
pub struct ServerInfo {
    pub(crate) path_subgraph_map: Table<String, String>,
    pub(crate) path_permission_map: Table<String, PermissionType>,
}

impl View for ServerInfo {
    type V = ServerInfoModel;

    closed spec fn view(&self) -> ServerInfoModel {
        ServerInfoModel {
            path_subgraph_map: self.path_subgraph_map.map(),
            path_permission_map: self.path_permission_map.map(),
        }
    }
}

impl ServerInfo {
    /// Nothing is known of any path.
    pub fn new() -> (r: ServerInfo)
        ensures
            r@ == (ServerInfoModel {
                path_subgraph_map: Map::empty(),
                path_permission_map: Map::empty(),
            }),
    {
        let path_subgraph_map = Table::new();
        let path_permission_map = Table::new();
        ServerInfo { path_subgraph_map, path_permission_map }
    }

    /// Sets the subgraph of `path`, in place of any earlier one.
    pub fn add_path(&mut self, path: String, subgraph: String)
        ensures
            final(self)@ == (ServerInfoModel {
                path_subgraph_map: old(self)@.path_subgraph_map.insert(path@, subgraph@),
                ..old(self)@
            }),
    {
        self.path_subgraph_map.insert(path, subgraph);
    }

    /// Sets the permission of `path`, in place of any earlier one.
    pub fn add_permission(&mut self, path: String, pt: PermissionType)
        ensures
            final(self)@ == (ServerInfoModel {
                path_permission_map: old(self)@.path_permission_map.insert(path@, pt),
                ..old(self)@
            }),
    {
        self.path_permission_map.insert(path, pt);
    }

    /// The subgraph of `path`, if one is set.
    pub fn subgraph(&self, path: &String) -> (r: Option<String>)
        ensures
            match r {
                Some(subgraph) => self@.path_subgraph_map.contains_key(path@) && subgraph@
                    == self@.path_subgraph_map[path@],
                None => !self@.path_subgraph_map.contains_key(path@),
            },
    {
        match self.path_subgraph_map.get(path) {
            Some(subgraph) => Some(subgraph.clone()),
            None => None,
        }
    }

    /// The permission of `path`, if one is set.
    pub fn permission(&self, path: &String) -> (r: Option<PermissionType>)
        ensures
            match r {
                Some(pt) => self@.path_permission_map.contains_key(path@) && pt
                    == self@.path_permission_map[path@],
                None => !self@.path_permission_map.contains_key(path@),
            },
    {
        match self.path_permission_map.get(path) {
            Some(pt) => Some(*pt),
            None => None,
        }
    }
}

} // verus!
