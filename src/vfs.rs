use vstd::prelude::*;
use vstd::string::StringExecFns;

use crate::reconcile::{lemma_reconcile_twice_keeps_ids, reconcile, reconciled, views};
use crate::tree::{Arena, Node, NodeId};

verus! {

/// The serialisation that a manifest file is shown in.
#[derive(Debug, Clone, Copy, PartialEq, Eq)]
pub enum KubeManifestType {
    Json,
    Yaml,
}

/// One resource kind that discovery reported.
#[derive(Debug)]
pub struct ApiResourceInfo {
    pub group: String,
    pub version: String,
    /// Singular PascalCase name of the resource
    pub kind: String,
    /// Plural name of the resource
    pub plural: String,
    /// Whether instances live inside a namespace.
    pub namespaced: bool,
}

/// One object that the cluster listed: a namespace or a resource instance.
#[derive(Debug)]
pub struct ObjectInfo {
    pub uid: Option<String>,
    pub name: String,
    pub namespace: Option<String>,
}

/// A directory of resources of one kind, under an optional alias.
#[derive(Debug)]
pub struct KubeApiResourceDirectory {
    pub name: String,
    pub namespace: String,
    pub alias: Option<String>,
    pub api: ApiResourceInfo,
}

impl KubeApiResourceDirectory {
    /// The alias where there is one, else the name.
    pub fn get_name(&self) -> (r: String)
        ensures
            r@ == match self.alias {
                Some(a) => a@,
                None => self.name@,
            },
    {
        match &self.alias {
            Some(a) => a.clone(),
            None => self.name.clone(),
        }
    }
}

/// A directory node for one namespace-scoped resource kind.
#[derive(Debug)]
pub struct KubeApiResourceNode {
    pub namespace: Option<String>,
    pub group: String,
    pub version: String,
    /// Singular PascalCase name of the resource
    pub kind: String,
    /// Plural name of the resource
    pub plural: String,
}

/// A node backed by one cluster object.
#[derive(Debug)]
pub struct KubeResourceNode {
    pub namespace: Option<String>,
    pub uuid: String,
    pub name: String,
    pub kind: String,
}

/// What a node of the filesystem tree stands for.
#[derive(Debug)]
pub enum KubeFileNode {
    Virtual(String),
    Context(String),
    ClusterInfoFile,
    ApiResourceDirectory(KubeApiResourceNode),
    ResourceDirectory(KubeResourceNode),
    ResourceFile(KubeResourceNode),
    LogFile(KubeResourceNode),
}

pub open spec fn opt_view(o: Option<String>) -> Option<Seq<char>> {
    match o {
        Some(s) => Some(s@),
        None => None,
    }
}

pub ghost struct ApiNodeView {
    pub namespace: Option<Seq<char>>,
    pub group: Seq<char>,
    pub version: Seq<char>,
    pub kind: Seq<char>,
    pub plural: Seq<char>,
}

pub ghost struct ResourceView {
    pub namespace: Option<Seq<char>>,
    pub uuid: Seq<char>,
    pub name: Seq<char>,
    pub kind: Seq<char>,
}

/// A [`KubeFileNode`] as plain values.
pub ghost enum FileNodeView {
    Virtual(Seq<char>),
    Context(Seq<char>),
    ClusterInfoFile,
    ApiResourceDirectory(ApiNodeView),
    ResourceDirectory(ResourceView),
    ResourceFile(ResourceView),
    LogFile(ResourceView),
}

impl View for KubeApiResourceNode {
    type V = ApiNodeView;

    open spec fn view(&self) -> ApiNodeView {
        ApiNodeView {
            namespace: opt_view(self.namespace),
            group: self.group@,
            version: self.version@,
            kind: self.kind@,
            plural: self.plural@,
        }
    }
}

impl View for KubeResourceNode {
    type V = ResourceView;

    open spec fn view(&self) -> ResourceView {
        ResourceView {
            namespace: opt_view(self.namespace),
            uuid: self.uuid@,
            name: self.name@,
            kind: self.kind@,
        }
    }
}

impl View for KubeFileNode {
    type V = FileNodeView;

    open spec fn view(&self) -> FileNodeView {
        match self {
            KubeFileNode::Virtual(s) => FileNodeView::Virtual(s@),
            KubeFileNode::Context(s) => FileNodeView::Context(s@),
            KubeFileNode::ClusterInfoFile => FileNodeView::ClusterInfoFile,
            KubeFileNode::ApiResourceDirectory(a) => FileNodeView::ApiResourceDirectory(a@),
            KubeFileNode::ResourceDirectory(r) => FileNodeView::ResourceDirectory(r@),
            KubeFileNode::ResourceFile(r) => FileNodeView::ResourceFile(r@),
            KubeFileNode::LogFile(r) => FileNodeView::LogFile(r@),
        }
    }
}

/// Whether two nodes stand for the same entity: synthetic and directory
/// nodes by their kind and naming fields, nodes backed by a cluster object by
/// its unique identifier alone.
pub open spec fn same_entity(a: FileNodeView, b: FileNodeView) -> bool {
    match (a, b) {
        (FileNodeView::Virtual(l), FileNodeView::Virtual(r)) => l == r,
        (FileNodeView::Context(l), FileNodeView::Context(r)) => l == r,
        (FileNodeView::ClusterInfoFile, FileNodeView::ClusterInfoFile) => true,
        (FileNodeView::ApiResourceDirectory(l), FileNodeView::ApiResourceDirectory(r)) => {
            l.kind == r.kind && l.group == r.group && l.version == r.version
        },
        (FileNodeView::ResourceDirectory(l), FileNodeView::ResourceDirectory(r)) => l.uuid
            == r.uuid,
        (FileNodeView::ResourceFile(l), FileNodeView::ResourceFile(r)) => l.uuid == r.uuid,
        (FileNodeView::LogFile(l), FileNodeView::LogFile(r)) => l.uuid == r.uuid,
        _ => false,
    }
}

impl PartialEq for KubeFileNode {
    fn eq(&self, other: &KubeFileNode) -> (r: bool)
        ensures
            r == same_entity(self@, other@),
    {
        match (self, other) {
            (KubeFileNode::Virtual(l), KubeFileNode::Virtual(r)) => *l == *r,
            (KubeFileNode::Context(l), KubeFileNode::Context(r)) => *l == *r,
            (KubeFileNode::ClusterInfoFile, KubeFileNode::ClusterInfoFile) => true,
            (KubeFileNode::ApiResourceDirectory(l), KubeFileNode::ApiResourceDirectory(r)) => {
                l.kind == r.kind && l.group == r.group && l.version == r.version
            },
            (KubeFileNode::ResourceDirectory(l), KubeFileNode::ResourceDirectory(r)) => l.uuid
                == r.uuid,
            (KubeFileNode::ResourceFile(l), KubeFileNode::ResourceFile(r)) => l.uuid == r.uuid,
            (KubeFileNode::LogFile(l), KubeFileNode::LogFile(r)) => l.uuid == r.uuid,
            _ => false,
        }
    }
}

impl vstd::std_specs::cmp::PartialEqSpecImpl for KubeFileNode {
    open spec fn obeys_eq_spec() -> bool {
        true
    }

    open spec fn eq_spec(&self, other: &KubeFileNode) -> bool {
        same_entity(self@, other@)
    }
}

fn copy_opt(o: &Option<String>) -> (r: Option<String>)
    ensures
        opt_view(r) == opt_view(*o),
{
    match o {
        Some(s) => Some(s.clone()),
        None => None,
    }
}

impl KubeApiResourceNode {
    /// The directory's name: the plural where it is known, else the kind.
    pub open spec fn spec_name(self) -> Seq<char> {
        if self.plural@.len() != 0 {
            self.plural@
        } else {
            self.kind@
        }
    }

    pub fn name(&self) -> (r: String)
        ensures
            r@ == self.spec_name(),
    {
        if !self.plural.as_str().is_empty() {
            self.plural.clone()
        } else {
            self.kind.clone()
        }
    }

    pub fn copy(&self) -> (r: KubeApiResourceNode)
        ensures
            r@ == self@,
    {
        KubeApiResourceNode {
            namespace: copy_opt(&self.namespace),
            group: self.group.clone(),
            version: self.version.clone(),
            kind: self.kind.clone(),
            plural: self.plural.clone(),
        }
    }
}

impl KubeResourceNode {
    pub fn new(uuid: &str, name: &str, kind: &str) -> (r: KubeResourceNode)
        ensures
            r.namespace is None,
            r.uuid@ == uuid@,
            r.name@ == name@,
            r.kind@ == kind@,
    {
        KubeResourceNode {
            namespace: None,
            uuid: String::from_str(uuid),
            name: String::from_str(name),
            kind: String::from_str(kind),
        }
    }

    pub fn copy(&self) -> (r: KubeResourceNode)
        ensures
            r@ == self@,
    {
        KubeResourceNode {
            namespace: copy_opt(&self.namespace),
            uuid: self.uuid.clone(),
            name: self.name.clone(),
            kind: self.kind.clone(),
        }
    }
}

/// The name that a node is listed under.
pub open spec fn file_name(n: FileNodeView) -> Seq<char> {
    match n {
        FileNodeView::Virtual(s) => s,
        FileNodeView::Context(s) => s,
        FileNodeView::ClusterInfoFile => "cluster_info"@,
        FileNodeView::ApiResourceDirectory(a) => if a.plural.len() != 0 {
            a.plural
        } else {
            a.kind
        },
        FileNodeView::ResourceDirectory(r) => r.name,
        FileNodeView::ResourceFile(r) => r.name + ".yml"@,
        FileNodeView::LogFile(_) => "logs"@,
    }
}

impl KubeFileNode {
    pub fn get_file_name(&self) -> (r: String)
        ensures
            r@ == file_name(self@),
    {
        match self {
            KubeFileNode::Context(name) => name.clone(),
            KubeFileNode::Virtual(name) => name.clone(),
            KubeFileNode::ClusterInfoFile => String::from_str("cluster_info"),
            KubeFileNode::ApiResourceDirectory(api) => api.name(),
            KubeFileNode::ResourceDirectory(r) => r.name.clone(),
            KubeFileNode::ResourceFile(r) => r.name.clone().concat(".yml"),
            KubeFileNode::LogFile(_) => String::from_str("logs"),
        }
    }

    pub fn copy(&self) -> (r: KubeFileNode)
        ensures
            r@ == self@,
    {
        match self {
            KubeFileNode::Virtual(s) => KubeFileNode::Virtual(s.clone()),
            KubeFileNode::Context(s) => KubeFileNode::Context(s.clone()),
            KubeFileNode::ClusterInfoFile => KubeFileNode::ClusterInfoFile,
            KubeFileNode::ApiResourceDirectory(a) => KubeFileNode::ApiResourceDirectory(a.copy()),
            KubeFileNode::ResourceDirectory(r) => KubeFileNode::ResourceDirectory(r.copy()),
            KubeFileNode::ResourceFile(r) => KubeFileNode::ResourceFile(r.copy()),
            KubeFileNode::LogFile(r) => KubeFileNode::LogFile(r.copy()),
        }
    }
}

/// Why an operation on the tree failed.
#[derive(Debug, Clone, Copy, PartialEq, Eq, Structural)]
pub enum VfsError {
    /// No node has the inode number, or no child has the name.
    NotFound,
    /// The node has no byte content.
    WrongKind,
    /// The cluster's answer could not be used.
    ProviderError,
    /// The identifier space is used up.
    Exhausted,
}

/// Whether a node is listed as a directory or as a regular file.
#[derive(Debug, Clone, Copy, PartialEq, Eq, Structural)]
pub enum KubeFileType {
    Directory,
    RegularFile,
}

/// The attributes that the filesystem reports for a node.
#[derive(Debug, Clone, Copy, PartialEq, Eq, Structural)]
pub struct KubeFileAttr {
    pub ino: u64,
    pub size: u64,
    pub kind: KubeFileType,
    pub perm: u16,
    pub nlink: u32,
    pub uid: u32,
    pub gid: u32,
    pub blksize: u32,
}

/// The size reported for every file; the content is made on each read.
pub const FILE_SIZE: u64 = 10000;

pub const DIR_PERM: u16 = 0o755;

pub const FILE_PERM: u16 = 0o655;

/// The attributes of node `ino` standing for `n`.
pub open spec fn attr_of(ino: u64, n: FileNodeView) -> KubeFileAttr {
    match n {
        FileNodeView::Virtual(_)
        | FileNodeView::Context(_)
        | FileNodeView::ApiResourceDirectory(_)
        | FileNodeView::ResourceDirectory(_) => KubeFileAttr {
            ino,
            size: 0,
            kind: KubeFileType::Directory,
            perm: DIR_PERM,
            nlink: 1,
            uid: 1000,
            gid: 1000,
            blksize: 512,
        },
        FileNodeView::ResourceFile(_) => KubeFileAttr {
            ino,
            size: FILE_SIZE,
            kind: KubeFileType::RegularFile,
            perm: FILE_PERM,
            nlink: 1,
            uid: 1000,
            gid: 1000,
            blksize: 512,
        },
        FileNodeView::ClusterInfoFile | FileNodeView::LogFile(_) => KubeFileAttr {
            ino,
            size: FILE_SIZE,
            kind: KubeFileType::RegularFile,
            perm: FILE_PERM,
            nlink: 1,
            uid: 10000,
            gid: 1000,
            blksize: 512,
        },
    }
}

pub proof fn lemma_attr_ino(ino: u64, n: FileNodeView)
    ensures
        attr_of(ino, n).ino == ino,
{
}

pub fn map_kube_file_to_attr(node: &Node<KubeFileNode>) -> (r: KubeFileAttr)
    ensures
        r == attr_of(node.id.value(), node.payload@),
{
    let ino = node.id.get();
    match &node.payload {
        KubeFileNode::Virtual(_)
        | KubeFileNode::Context(_)
        | KubeFileNode::ApiResourceDirectory(_)
        | KubeFileNode::ResourceDirectory(_) => KubeFileAttr {
            ino,
            size: 0,
            kind: KubeFileType::Directory,
            perm: DIR_PERM,
            nlink: 1,
            uid: 1000,
            gid: 1000,
            blksize: 512,
        },
        KubeFileNode::ResourceFile(_) => KubeFileAttr {
            ino,
            size: FILE_SIZE,
            kind: KubeFileType::RegularFile,
            perm: FILE_PERM,
            nlink: 1,
            uid: 1000,
            gid: 1000,
            blksize: 512,
        },
        KubeFileNode::ClusterInfoFile | KubeFileNode::LogFile(_) => KubeFileAttr {
            ino,
            size: FILE_SIZE,
            kind: KubeFileType::RegularFile,
            perm: FILE_PERM,
            nlink: 1,
            uid: 10000,
            gid: 1000,
            blksize: 512,
        },
    }
}

pub open spec fn dots() -> Seq<FileNodeView> {
    seq![FileNodeView::Virtual("."@), FileNodeView::Virtual(".."@)]
}

/// Whether every object carries a unique identifier.
pub open spec fn has_uids(objs: Seq<ObjectInfo>) -> bool {
    forall|i: int| 0 <= i < objs.len() ==> (#[trigger] objs[i]).uid is Some
}

pub open spec fn namespace_view(o: ObjectInfo) -> ResourceView {
    ResourceView { namespace: None, uuid: o.uid->Some_0@, name: o.name@, kind: "Namespace"@ }
}

/// A directory and a manifest file for each namespace, in order.
pub open spec fn namespace_entries(objs: Seq<ObjectInfo>) -> Seq<FileNodeView>
    decreases objs.len(),
{
    if objs.len() == 0 {
        seq![]
    } else {
        namespace_entries(objs.drop_last()) + seq![
            FileNodeView::ResourceDirectory(namespace_view(objs.last())),
            FileNodeView::ResourceFile(namespace_view(objs.last())),
        ]
    }
}

/// A directory for each namespace-scoped resource kind of `apis`, in order.
pub open spec fn api_entries(apis: Seq<ApiResourceInfo>, ns: Seq<char>) -> Seq<FileNodeView>
    decreases apis.len(),
{
    if apis.len() == 0 {
        seq![]
    } else {
        let rest = api_entries(apis.drop_last(), ns);
        let a = apis.last();
        if a.namespaced {
            rest.push(
                FileNodeView::ApiResourceDirectory(
                    ApiNodeView {
                        namespace: Some(ns),
                        group: a.group@,
                        version: a.version@,
                        kind: a.kind@,
                        plural: a.plural@,
                    },
                ),
            )
        } else {
            rest
        }
    }
}

pub open spec fn object_view(o: ObjectInfo, kind: Seq<char>) -> FileNodeView {
    FileNodeView::ResourceFile(
        ResourceView {
            namespace: opt_view(o.namespace),
            uuid: o.uid->Some_0@,
            name: o.name@,
            kind,
        },
    )
}

/// The children that a node of kind `n` should have, given the discovered
/// resource kinds and the objects that the cluster listed for it; `None`
/// where a listed object lacks its unique identifier.
pub open spec fn desired_children(
    n: FileNodeView,
    apis: Seq<ApiResourceInfo>,
    objs: Seq<ObjectInfo>,
) -> Option<Seq<FileNodeView>> {
    match n {
        FileNodeView::Context(_) => if has_uids(objs) {
            Some(dots() + seq![FileNodeView::ClusterInfoFile] + namespace_entries(objs))
        } else {
            None
        },
        FileNodeView::ResourceDirectory(r) => Some(
            dots() + if r.kind == "Namespace"@ {
                api_entries(apis, r.name)
            } else {
                seq![]
            },
        ),
        FileNodeView::ApiResourceDirectory(a) => if has_uids(objs) {
            Some(dots() + objs.map_values(|o: ObjectInfo| object_view(o, a.kind)))
        } else {
            None
        },
        _ => Some(seq![]),
    }
}

fn dot_nodes() -> (r: Vec<KubeFileNode>)
    ensures
        views(r@) == dots(),
{
    let mut items: Vec<KubeFileNode> = Vec::new();
    items.push(KubeFileNode::Virtual(String::from_str(".")));
    items.push(KubeFileNode::Virtual(String::from_str("..")));
    assert(views(items@) =~= dots());
    items
}

/// The position of the first object in `objs` whose unique identifier is
/// `uid`.
pub fn find_by_uid(objs: &Vec<ObjectInfo>, uid: &String) -> (r: Option<usize>)
    ensures
        match r {
            Some(i) => {
                &&& i < objs@.len()
                &&& opt_view(objs@[i as int].uid) == Some(uid@)
                &&& forall|k: int|
                    0 <= k < i ==> opt_view((#[trigger] objs@[k]).uid) != Some(uid@)
            },
            None => forall|k: int|
                0 <= k < objs@.len() ==> opt_view((#[trigger] objs@[k]).uid) != Some(uid@),
        },
{
    let mut i: usize = 0;
    while i < objs.len()
        invariant
            i <= objs.len(),
            forall|k: int| 0 <= k < i ==> opt_view((#[trigger] objs@[k]).uid) != Some(uid@),
        decreases objs.len() - i,
    {
        match &objs[i].uid {
            Some(u) => {
                if *u == *uid {
                    return Some(i);
                }
            },
            None => {},
        }
        i = i + 1;
    }
    None
}

/// What the cluster must be asked for before a directory is reconciled.
#[derive(Debug)]
pub enum FetchRequest {
    /// The node's children do not depend on the cluster.
    Nothing,
    /// The list of namespaces.
    Namespaces,
    /// The instances, in `namespace`, of the resource kind at `api_index` of
    /// the discovered kinds.
    Resources { namespace: String, api_index: usize },
}

pub open spec fn api_matches(a: ApiResourceInfo, n: ApiNodeView) -> bool {
    a.group@ == n.group && a.kind@ == n.kind && a.version@ == n.version
}

/// Whether `out` lists the children of `inode` in `t`, in order, each by
/// its name and attributes.
pub open spec fn listing_of(t: Arena<KubeFileNode>, inode: u64, out: Seq<(String, KubeFileAttr)>) -> bool {
    let ch = t.children_of(inode);
    &&& out.len() == ch.len()
    &&& forall|k: int|
        0 <= k < out.len() ==> (#[trigger] out[k]).0@ == file_name(t@[ch[k]].payload@)
            && out[k].1 == attr_of(ch[k], t@[ch[k]].payload@)
}

/// Reconciling a directory a second time against the same listing, after a
/// first reconciliation that succeeded, leaves the whole tree as it is: no
/// node is deleted or added and every identifier stays.
pub proof fn lemma_sync_twice_keeps_tree(
    v0: KubeVirtualFs,
    v1: KubeVirtualFs,
    t2: Arena<KubeFileNode>,
    inode: u64,
    objs: Seq<ObjectInfo>,
    r2: Result<(), VfsError>,
)
    requires
        v0.wf(),
        v1.apis() == v0.apis(),
        v0.synced(v1.tree(), inode, objs, Ok(())),
        v1.synced(t2, inode, objs, r2),
    ensures
        t2@ == v1.tree()@,
        t2.next_id() == v1.tree().next_id(),
        t2.children_of(inode) == v1.tree().children_of(inode),
{
    match v0.sync_plan(inode, objs) {
        Some(Ok(ds)) => {
            let t1 = v1.tree();
            assert(t1@[inode].payload == v0.tree()@[inode].payload);
            assert(v1.payload(inode) == v0.payload(inode));
            match v1.sync_plan(inode, objs) {
                Some(Ok(ds2)) => {
                    assert(ds2 == ds);
                    lemma_reconcile_twice_keeps_ids(v0.tree(), t1, t2, inode, ds);
                },
                _ => {},
            }
        },
        _ => {},
    }
}

/// The filesystem tree, with the resource kinds that discovery reported.
pub struct KubeVirtualFs {
    api_resources: Vec<ApiResourceInfo>,
    arena_two: Arena<KubeFileNode>,
}

/// The inode number of the root directory.
pub const ROOT_INODE: u64 = 1;

impl KubeVirtualFs {
    pub closed spec fn tree(&self) -> Arena<KubeFileNode> {
        self.arena_two
    }

    pub closed spec fn apis(&self) -> Seq<ApiResourceInfo> {
        self.api_resources@
    }

    pub open spec fn wf(&self) -> bool {
        self.tree().wf()
    }

    /// Whether `inode` names a node.
    pub open spec fn has_inode(&self, inode: u64) -> bool {
        self.tree().has(inode)
    }

    pub open spec fn payload(&self, inode: u64) -> FileNodeView {
        self.tree()@[inode].payload@
    }

    /// What reconciling `inode` against `objs` amounts to: nothing where
    /// `inode` names no node, else the entries to reconcile with, or the
    /// error that leaves the tree as it is.
    pub open spec fn sync_plan(&self, inode: u64, objs: Seq<ObjectInfo>) -> Option<
        Result<Seq<FileNodeView>, VfsError>,
    > {
        if !self.has_inode(inode) {
            None
        } else {
            match desired_children(self.payload(inode), self.apis(), objs) {
                None => Some(Err(VfsError::ProviderError)),
                Some(ds) => if self.tree().next_id() + ds.len() < u64::MAX {
                    Some(Ok(ds))
                } else {
                    Some(Err(VfsError::Exhausted))
                },
            }
        }
    }

    /// Whether `after` and `r` are what reconciling `inode` against `objs`
    /// leaves.
    pub open spec fn synced(
        &self,
        after: Arena<KubeFileNode>,
        inode: u64,
        objs: Seq<ObjectInfo>,
        r: Result<(), VfsError>,
    ) -> bool {
        match self.sync_plan(inode, objs) {
            None => r is Ok && after == self.tree(),
            Some(Err(e)) => r == Err::<(), VfsError>(e) && after == self.tree(),
            Some(Ok(ds)) => r is Ok && after.has(inode) && reconciled(self.tree(), after, inode, ds),
        }
    }

    /// A tree that holds the root context alone.
    pub fn new(api_resources: Vec<ApiResourceInfo>) -> (r: KubeVirtualFs)
        ensures
            r.wf(),
            r.apis() == api_resources@,
            r.tree()@.dom() == set![ROOT_INODE],
            r.payload(ROOT_INODE) == FileNodeView::Context("default"@),
            r.tree().children_of(ROOT_INODE).len() == 0,
    {
        let mut arena_two = Arena::new();
        let root = arena_two.add(KubeFileNode::Context(String::from_str("default")), None);
        assert(arena_two@.dom() =~= set![ROOT_INODE]);
        KubeVirtualFs { api_resources, arena_two }
    }

    /// What the cluster must be asked for before the directory `inode` is
    /// reconciled.
    pub fn fetch_request(&self, inode: u64) -> (r: Result<FetchRequest, VfsError>)
        requires
            self.wf(),
        ensures
            !self.has_inode(inode) ==> r == Err::<FetchRequest, VfsError>(VfsError::NotFound),
            self.has_inode(inode) ==> match self.payload(inode) {
                FileNodeView::Context(_) => r matches Ok(FetchRequest::Namespaces),
                FileNodeView::ApiResourceDirectory(a) => match r {
                    Ok(FetchRequest::Resources { namespace, api_index }) => {
                        &&& a.namespace == Some(namespace@)
                        &&& api_index < self.apis().len()
                        &&& api_matches(self.apis()[api_index as int], a)
                        &&& forall|k: int|
                            0 <= k < api_index ==> !api_matches(#[trigger] self.apis()[k], a)
                    },
                    Err(e) => e == VfsError::ProviderError && (a.namespace is None || forall|
                        k: int,
                    |
                        0 <= k < self.apis().len() ==> !api_matches(#[trigger] self.apis()[k], a)),
                    _ => false,
                },
                _ => r matches Ok(FetchRequest::Nothing),
            },
    {
        if inode == 0 {
            return Err(VfsError::NotFound);
        }
        let id = NodeId::new(inode);
        let node = match self.arena_two.get(&id) {
            Some(n) => n,
            None => {
                return Err(VfsError::NotFound);
            },
        };
        match &node.payload {
            KubeFileNode::Context(_) => Ok(FetchRequest::Namespaces),
            KubeFileNode::ApiResourceDirectory(api) => {
                let namespace = match &api.namespace {
                    Some(ns) => ns.clone(),
                    None => {
                        return Err(VfsError::ProviderError);
                    },
                };
                let mut i: usize = 0;
                while i < self.api_resources.len()
                    invariant
                        i <= self.api_resources.len(),
                        self.wf(),
                        self.has_inode(inode),
                        self.payload(inode) == FileNodeView::ApiResourceDirectory(api@),
                        opt_view(api.namespace) == Some(namespace@),
                        forall|k: int|
                            0 <= k < i ==> !api_matches(#[trigger] self.api_resources@[k], api@),
                    decreases self.api_resources.len() - i,
                {
                    let a = &self.api_resources[i];
                    if a.group == api.group && a.kind == api.kind && a.version == api.version {
                        assert(api_matches(self.api_resources@[i as int], api@));
                        return Ok(FetchRequest::Resources { namespace, api_index: i });
                    }
                    i = i + 1;
                }
                Err(VfsError::ProviderError)
            },
            _ => Ok(FetchRequest::Nothing),
        }
    }

    /// The children that `node` should have, given what the cluster listed
    /// for it.
    pub fn get_leafs_for_node(&self, node: &KubeFileNode, fetched: &Vec<ObjectInfo>) -> (r: Result<
        Vec<KubeFileNode>,
        VfsError,
    >)
        ensures
            match desired_children(node@, self.apis(), fetched@) {
                Some(ds) => r is Ok && views(r->Ok_0@) == ds,
                None => r == Err::<Vec<KubeFileNode>, VfsError>(VfsError::ProviderError),
            },
    {
        match node {
            KubeFileNode::Context(_) => {
                let mut items = dot_nodes();
                items.push(KubeFileNode::ClusterInfoFile);
                let ghost head = views(items@);
                assert(head =~= dots() + seq![FileNodeView::ClusterInfoFile]);
                let mut i: usize = 0;
                while i < fetched.len()
                    invariant
                        i <= fetched.len(),
                        node@ is Context,
                        head == dots() + seq![FileNodeView::ClusterInfoFile],
                        has_uids(fetched@.subrange(0, i as int)),
                        views(items@) == head + namespace_entries(fetched@.subrange(0, i as int)),
                    decreases fetched.len() - i,
                {
                    let o = &fetched[i];
                    let uid = match &o.uid {
                        Some(u) => u,
                        None => {
                            assert(!has_uids(fetched@)) by {
                                assert(fetched@[i as int].uid is None);
                            }
                            return Err(VfsError::ProviderError);
                        },
                    };
                    let n = KubeResourceNode::new(uid.as_str(), o.name.as_str(), "Namespace");
                    let n2 = n.copy();
                    let ghost before = views(items@);
                    items.push(KubeFileNode::ResourceDirectory(n));
                    items.push(KubeFileNode::ResourceFile(n2));
                    proof {
                        let sub = fetched@.subrange(0, i + 1);
                        assert(sub.drop_last() =~= fetched@.subrange(0, i as int));
                        assert(sub.last() == fetched@[i as int]);
                        assert(n@ == namespace_view(fetched@[i as int]));
                        assert(views(items@) =~= before + seq![
                            FileNodeView::ResourceDirectory(n@),
                            FileNodeView::ResourceFile(n@),
                        ]);
                        assert(has_uids(sub)) by {
                            assert forall|k: int| 0 <= k < sub.len() implies (
                            #[trigger] sub[k]).uid is Some by {
                                if k < i {
                                    assert(fetched@.subrange(0, i as int)[k] == sub[k]);
                                }
                            }
                        }
                    }
                    i = i + 1;
                }
                assert(fetched@.subrange(0, fetched@.len() as int) =~= fetched@);
                Ok(items)
            },
            KubeFileNode::ResourceDirectory(dir) => {
                let mut items = dot_nodes();
                if dir.kind == String::from_str("Namespace") {
                    let ghost head = views(items@);
                    let mut i: usize = 0;
                    while i < self.api_resources.len()
                        invariant
                            i <= self.api_resources.len(),
                            head == dots(),
                            views(items@) == head + api_entries(
                                self.api_resources@.subrange(0, i as int),
                                dir.name@,
                            ),
                        decreases self.api_resources.len() - i,
                    {
                        let api = &self.api_resources[i];
                        let ghost before = views(items@);
                        let ghost sub = self.api_resources@.subrange(0, i + 1);
                        proof {
                            assert(sub.drop_last() =~= self.api_resources@.subrange(0, i as int));
                            assert(sub.last() == self.api_resources@[i as int]);
                        }
                        if api.namespaced {
                            let n = KubeApiResourceNode {
                                namespace: Some(dir.name.clone()),
                                group: api.group.clone(),
                                kind: api.kind.clone(),
                                version: api.version.clone(),
                                plural: api.plural.clone(),
                            };
                            items.push(KubeFileNode::ApiResourceDirectory(n));
                            assert(views(items@) =~= before.push(
                                FileNodeView::ApiResourceDirectory(n@),
                            ));
                        }
                        i = i + 1;
                    }
                    assert(self.api_resources@.subrange(0, self.api_resources@.len() as int)
                        =~= self.api_resources@);
                } else {
                    assert(views(items@) =~= dots() + seq![]);
                }
                Ok(items)
            },
            KubeFileNode::ApiResourceDirectory(api) => {
                let mut items = dot_nodes();
                let ghost head = views(items@);
                let ghost f = |o: ObjectInfo| object_view(o, api.kind@);
                let mut i: usize = 0;
                while i < fetched.len()
                    invariant
                        i <= fetched.len(),
                        node@ == FileNodeView::ApiResourceDirectory(api@),
                        head == dots(),
                        f == (|o: ObjectInfo| object_view(o, api.kind@)),
                        has_uids(fetched@.subrange(0, i as int)),
                        views(items@) == head + fetched@.subrange(0, i as int).map_values(f),
                    decreases fetched.len() - i,
                {
                    let o = &fetched[i];
                    let uid = match &o.uid {
                        Some(u) => u,
                        None => {
                            assert(!has_uids(fetched@)) by {
                                assert(fetched@[i as int].uid is None);
                            }
                            return Err(VfsError::ProviderError);
                        },
                    };
                    let n = KubeResourceNode {
                        namespace: copy_opt(&o.namespace),
                        uuid: uid.clone(),
                        name: o.name.clone(),
                        kind: api.kind.clone(),
                    };
                    let ghost before = views(items@);
                    items.push(KubeFileNode::ResourceFile(n));
                    proof {
                        let sub = fetched@.subrange(0, i + 1);
                        assert(sub.map_values(f) =~= fetched@.subrange(0, i as int).map_values(
                            f,
                        ).push(f(fetched@[i as int])));
                        assert(views(items@) =~= before.push(f(fetched@[i as int])));
                        assert(has_uids(sub)) by {
                            assert forall|k: int| 0 <= k < sub.len() implies (
                            #[trigger] sub[k]).uid is Some by {
                                if k < i {
                                    assert(fetched@.subrange(0, i as int)[k] == sub[k]);
                                }
                            }
                        }
                    }
                    i = i + 1;
                }
                assert(fetched@.subrange(0, fetched@.len() as int) =~= fetched@);
                Ok(items)
            },
            _ => {
                let items: Vec<KubeFileNode> = Vec::new();
                assert(views(items@) =~= seq![]);
                Ok(items)
            },
        }
    }

    /// Reconciles the children of the directory `inode` with what the
    /// cluster listed for it. Nothing changes where `inode` names no node,
    /// where a listed object lacks its unique identifier, or where the
    /// identifier space would run out.
    pub fn sync_leafs_for_inode(&mut self, inode: u64, fetched: &Vec<ObjectInfo>) -> (r: Result<
        (),
        VfsError,
    >)
        requires
            old(self).wf(),
        ensures
            final(self).wf(),
            final(self).apis() == old(self).apis(),
            old(self).synced(final(self).tree(), inode, fetched@, r),
    {
        if inode == 0 {
            return Ok(());
        }
        let id = NodeId::new(inode);
        let desired = match self.arena_two.get(&id) {
            None => {
                return Ok(());
            },
            Some(node) => match self.get_leafs_for_node(&node.payload, fetched) {
                Ok(d) => d,
                Err(e) => {
                    return Err(e);
                },
            },
        };
        let next = self.arena_two.next_id_exec();
        if desired.len() as u64 >= u64::MAX - next {
            return Err(VfsError::Exhausted);
        }
        reconcile(&mut self.arena_two, &id, desired);
        Ok(())
    }

    /// The name and attributes of the first child of `parent` listed under
    /// `name`, without reconciling.
    pub fn find_child_by_name(&self, parent: u64, name: &str) -> (r: Result<
        (String, KubeFileAttr),
        VfsError,
    >)
        requires
            self.wf(),
        ensures
            !self.has_inode(parent) ==> r == Err::<(String, KubeFileAttr), VfsError>(
                VfsError::NotFound,
            ),
            self.has_inode(parent) ==> {
                let ch = self.tree().children_of(parent);
                match r {
                    Ok((n, attr)) => exists|i: int|
                        0 <= i < ch.len() && file_name(self.payload(#[trigger] ch[i])) == name@ && (forall|
                            k: int,
                        |
                            0 <= k < i ==> file_name(self.payload(#[trigger] ch[k])) != name@)
                            && n@ == name@ && attr == attr_of(ch[i], self.payload(ch[i])),
                    Err(e) => e == VfsError::NotFound && forall|k: int|
                        0 <= k < ch.len() ==> file_name(self.payload(#[trigger] ch[k])) != name@,
                }
            },
    {
        if parent == 0 {
            return Err(VfsError::NotFound);
        }
        let id = NodeId::new(parent);
        let nodes = match self.arena_two.get_children(&id) {
            Some(n) => n,
            None => {
                return Err(VfsError::NotFound);
            },
        };
        let wanted = String::from_str(name);
        let ghost ch = self.tree().children_of(parent);
        let mut i: usize = 0;
        while i < nodes.len()
            invariant
                i <= nodes.len(),
                self.wf(),
                self.has_inode(parent),
                ch == self.tree().children_of(parent),
                wanted@ == name@,
                nodes@.len() == ch.len(),
                forall|k: int| 0 <= k < nodes@.len() ==> (#[trigger] nodes@[k])@ == self.tree()@[ch[k]],
                forall|k: int| 0 <= k < i ==> file_name(self.payload(#[trigger] ch[k])) != name@,
            decreases nodes.len() - i,
        {
            let n = nodes[i];
            let fname = n.payload.get_file_name();
            proof {
                assert(nodes@[i as int]@ == self.tree()@[ch[i as int]]);
                assert(ch.contains(ch[i as int]));
                assert(n.id.value() == ch[i as int]);
            }
            if fname == wanted {
                let attr = map_kube_file_to_attr(n);
                return Ok((fname, attr));
            }
            i = i + 1;
        }
        Err(VfsError::NotFound)
    }

    /// Looks `name` up under `parent` after reconciling `parent` with what
    /// the cluster listed for it.
    pub fn get_file_from_parent_by_name_two(
        &mut self,
        parent: u64,
        name: &str,
        fetched: &Vec<ObjectInfo>,
    ) -> (r: Result<(String, KubeFileAttr), VfsError>)
        requires
            old(self).wf(),
        ensures
            final(self).wf(),
            final(self).apis() == old(self).apis(),
            !old(self).has_inode(parent) ==> r == Err::<(String, KubeFileAttr), VfsError>(
                VfsError::NotFound,
            ) && final(self).tree() == old(self).tree(),
            old(self).sync_plan(parent, fetched@) matches Some(Err(e)) ==> r == Err::<
                (String, KubeFileAttr),
                VfsError,
            >(e) && final(self).tree() == old(self).tree(),
            old(self).sync_plan(parent, fetched@) is Some && old(self).sync_plan(
                parent,
                fetched@,
            )->Some_0 is Ok ==> {
                let ds = old(self).sync_plan(parent, fetched@)->Some_0->Ok_0;
                let ch = final(self).tree().children_of(parent);
                &&& final(self).has_inode(parent)
                &&& reconciled(old(self).tree(), final(self).tree(), parent, ds)
                &&& match r {
                    Ok((n, attr)) => exists|i: int|
                        0 <= i < ch.len() && file_name(final(self).payload(#[trigger] ch[i]))
                            == name@ && (forall|k: int|
                            0 <= k < i ==> file_name(final(self).payload(#[trigger] ch[k]))
                                != name@) && n@ == name@ && attr == attr_of(
                            ch[i],
                            final(self).payload(ch[i]),
                        ),
                    Err(e) => e == VfsError::NotFound && forall|k: int|
                        0 <= k < ch.len() ==> file_name(final(self).payload(#[trigger] ch[k]))
                            != name@,
                }
            },
    {
        match self.sync_leafs_for_inode(parent, fetched) {
            Ok(()) => {},
            Err(e) => {
                return Err(e);
            },
        }
        self.find_child_by_name(parent, name)
    }

    /// The name and attributes of node `inode`.
    pub fn get_file(&self, inode: u64) -> (r: Option<(String, KubeFileAttr)>)
        requires
            self.wf(),
        ensures
            r is None <==> !self.has_inode(inode),
            r matches Some((n, attr)) ==> n@ == file_name(self.payload(inode)) && attr == attr_of(
                inode,
                self.payload(inode),
            ),
    {
        if inode == 0 {
            proof {
                assert(!self.tree().has(0));
            }
            return None;
        }
        let id = NodeId::new(inode);
        match self.arena_two.get(&id) {
            Some(node) => Some((node.payload.get_file_name(), map_kube_file_to_attr(node))),
            None => None,
        }
    }

    /// The names and attributes of the children of `inode`, in order,
    /// without reconciling.
    pub fn list_children(&self, inode: u64) -> (r: Option<Vec<(String, KubeFileAttr)>>)
        requires
            self.wf(),
        ensures
            r is None <==> !self.has_inode(inode),
            r is Some ==> listing_of(self.tree(), inode, r->Some_0@),
    {
        if inode == 0 {
            return None;
        }
        let id = NodeId::new(inode);
        let nodes = match self.arena_two.get_children(&id) {
            Some(n) => n,
            None => {
                return None;
            },
        };
        let ghost ch = self.tree().children_of(inode);
        let mut out: Vec<(String, KubeFileAttr)> = Vec::new();
        let mut i: usize = 0;
        while i < nodes.len()
            invariant
                i <= nodes.len(),
                self.wf(),
                self.has_inode(inode),
                ch == self.tree().children_of(inode),
                nodes@.len() == ch.len(),
                forall|k: int| 0 <= k < nodes@.len() ==> (#[trigger] nodes@[k])@ == self.tree()@[ch[k]],
                out@.len() == i,
                forall|k: int|
                    0 <= k < i ==> (#[trigger] out@[k]).0@ == file_name(self.payload(ch[k]))
                        && out@[k].1 == attr_of(ch[k], self.payload(ch[k])),
            decreases nodes.len() - i,
        {
            let n = nodes[i];
            proof {
                assert(nodes@[i as int]@ == self.tree()@[ch[i as int]]);
                assert(ch.contains(ch[i as int]));
            }
            out.push((n.payload.get_file_name(), map_kube_file_to_attr(n)));
            i = i + 1;
        }
        Some(out)
    }

    /// The names and attributes of the children of `inode`, in order, after
    /// reconciling `inode` with what the cluster listed for it.
    pub fn list_files_two(&mut self, inode: u64, fetched: &Vec<ObjectInfo>) -> (r: Result<
        Vec<(String, KubeFileAttr)>,
        VfsError,
    >)
        requires
            old(self).wf(),
        ensures
            final(self).wf(),
            final(self).apis() == old(self).apis(),
            !old(self).has_inode(inode) ==> r == Err::<Vec<(String, KubeFileAttr)>, VfsError>(
                VfsError::NotFound,
            ) && final(self).tree() == old(self).tree(),
            old(self).sync_plan(inode, fetched@) matches Some(Err(e)) ==> r == Err::<
                Vec<(String, KubeFileAttr)>,
                VfsError,
            >(e) && final(self).tree() == old(self).tree(),
            old(self).sync_plan(inode, fetched@) is Some && old(self).sync_plan(
                inode,
                fetched@,
            )->Some_0 is Ok ==> {
                &&& final(self).has_inode(inode)
                &&& reconciled(
                    old(self).tree(),
                    final(self).tree(),
                    inode,
                    old(self).sync_plan(inode, fetched@)->Some_0->Ok_0,
                )
                &&& r is Ok
                &&& listing_of(final(self).tree(), inode, r->Ok_0@)
            },
    {
        match self.sync_leafs_for_inode(inode, fetched) {
            Ok(()) => {},
            Err(e) => {
                return Err(e);
            },
        }
        match self.list_children(inode) {
            Some(v) => Ok(v),
            None => Err(VfsError::NotFound),
        }
    }

    /// The object whose manifest a read of `inode` shows.
    pub fn get_kube_manifest(&self, inode: u64) -> (r: Result<KubeResourceNode, VfsError>)
        requires
            self.wf(),
        ensures
            !self.has_inode(inode) ==> r == Err::<KubeResourceNode, VfsError>(VfsError::NotFound),
            self.has_inode(inode) ==> match self.payload(inode) {
                FileNodeView::ResourceFile(m) => r is Ok && r->Ok_0@ == m,
                _ => r == Err::<KubeResourceNode, VfsError>(VfsError::WrongKind),
            },
    {
        if inode == 0 {
            return Err(VfsError::NotFound);
        }
        let id = NodeId::new(inode);
        match self.arena_two.get(&id) {
            Some(node) => match &node.payload {
                KubeFileNode::ResourceFile(m) => Ok(m.copy()),
                _ => Err(VfsError::WrongKind),
            },
            None => Err(VfsError::NotFound),
        }
    }

    /// What the cluster must be asked for to find the object behind the
    /// manifest `m`: the namespaces for a namespace, else the instances of
    /// the first discovered kind named like the object's, in its namespace.
    pub fn manifest_request(&self, m: &KubeResourceNode) -> (r: Result<FetchRequest, VfsError>)
        ensures
            m.kind@ == "Namespace"@ ==> r matches Ok(FetchRequest::Namespaces),
            m.kind@ != "Namespace"@ ==> match r {
                Ok(FetchRequest::Resources { namespace, api_index }) => {
                    &&& m.namespace is Some
                    &&& namespace@ == m.namespace->Some_0@
                    &&& api_index < self.apis().len()
                    &&& self.apis()[api_index as int].kind@ == m.kind@
                    &&& forall|k: int|
                        0 <= k < api_index ==> (#[trigger] self.apis()[k]).kind@ != m.kind@
                },
                Err(e) => e == VfsError::NotFound && (m.namespace is None || forall|k: int|
                    0 <= k < self.apis().len() ==> (#[trigger] self.apis()[k]).kind@ != m.kind@),
                _ => false,
            },
    {
        if m.kind == String::from_str("Namespace") {
            return Ok(FetchRequest::Namespaces);
        }
        let namespace = match &m.namespace {
            Some(ns) => ns.clone(),
            None => {
                return Err(VfsError::NotFound);
            },
        };
        let mut i: usize = 0;
        while i < self.api_resources.len()
            invariant
                i <= self.api_resources.len(),
                self.apis() == self.api_resources@,
                m.kind@ != "Namespace"@,
                m.namespace is Some,
                namespace@ == m.namespace->Some_0@,
                forall|k: int| 0 <= k < i ==> (#[trigger] self.api_resources@[k]).kind@ != m.kind@,
            decreases self.api_resources.len() - i,
        {
            if self.api_resources[i].kind == m.kind {
                return Ok(FetchRequest::Resources { namespace, api_index: i });
            }
            i = i + 1;
        }
        Err(VfsError::NotFound)
    }
}

} // verus!
