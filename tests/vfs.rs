use kubefs::fuse::{read_range, readdir, readdir_page};
use kubefs::tree::{Arena, NodeId};
use kubefs::reconcile::reconcile;
use kubefs::vfs::{
    find_by_uid, ApiResourceInfo, FetchRequest, KubeApiResourceNode, KubeFileAttr, KubeFileNode,
    KubeFileType, KubeResourceNode, KubeVirtualFs, ObjectInfo, VfsError, ROOT_INODE,
};

fn res(uid: &str, name: &str) -> KubeResourceNode {
    KubeResourceNode::new(uid, name, "Pod")
}

fn file(uid: &str, name: &str) -> KubeFileNode {
    KubeFileNode::ResourceFile(res(uid, name))
}

fn obj(uid: &str, name: &str) -> ObjectInfo {
    ObjectInfo { uid: Some(uid.to_string()), name: name.to_string(), namespace: None }
}

fn api(kind: &str, plural: &str, namespaced: bool) -> ApiResourceInfo {
    ApiResourceInfo {
        group: "apps".to_string(),
        version: "v1".to_string(),
        kind: kind.to_string(),
        plural: plural.to_string(),
        namespaced,
    }
}

fn child_ids(arena: &Arena<KubeFileNode>, dir: &NodeId) -> Vec<u64> {
    arena.get(dir).unwrap().children_ids.iter().map(|n| n.get()).collect()
}

#[test]
fn reconcile_converges_to_the_live_set() {
    let mut arena = Arena::new();
    let dir = arena.add(KubeFileNode::Context("default".to_string()), None);
    let a = arena.add(file("a", "A"), Some(dir));
    let b = arena.add(file("b", "B"), Some(dir));
    let c = arena.add(file("c", "C"), Some(dir));
    let nested = arena.add(file("x", "X"), Some(a));
    reconcile(&mut arena, &dir, vec![file("b", "B"), file("c", "C"), file("d", "D")]);
    assert!(!arena.contains(&a));
    assert!(!arena.contains(&nested));
    assert_eq!(child_ids(&arena, &dir), vec![b.get(), c.get(), 6]);
    assert_eq!(arena.get(&NodeId::new(6)).unwrap().payload.get_file_name(), "D.yml");
}

#[test]
fn reconcile_twice_keeps_every_id() {
    let mut arena = Arena::new();
    let dir = arena.add(KubeFileNode::Context("default".to_string()), None);
    let live = || vec![file("a", "A"), file("b", "B"), KubeFileNode::ClusterInfoFile];
    reconcile(&mut arena, &dir, live());
    let first = child_ids(&arena, &dir);
    assert_eq!(first, vec![2, 3, 4]);
    reconcile(&mut arena, &dir, live());
    assert_eq!(child_ids(&arena, &dir), first);
    assert!(!arena.contains(&NodeId::new(5)));
}

#[test]
fn reconcile_keeps_a_renamed_object_by_uid() {
    let mut arena = Arena::new();
    let dir = arena.add(KubeFileNode::Context("default".to_string()), None);
    let a = arena.add(file("a", "old-name"), Some(dir));
    reconcile(&mut arena, &dir, vec![file("a", "new-name")]);
    assert_eq!(child_ids(&arena, &dir), vec![a.get()]);
    assert_eq!(arena.get(&a).unwrap().payload.get_file_name(), "old-name.yml");
}

#[test]
fn semantic_equality_follows_identity() {
    assert!(file("u1", "a") == file("u1", "b"));
    assert!(file("u1", "a") != file("u2", "a"));
    assert!(KubeFileNode::ResourceDirectory(res("u1", "a")) != file("u1", "a"));
    assert!(KubeFileNode::Virtual(".".to_string()) == KubeFileNode::Virtual(".".to_string()));
    assert!(KubeFileNode::Virtual(".".to_string()) != KubeFileNode::Virtual("..".to_string()));
    let d1 = KubeApiResourceNode {
        namespace: Some("default".to_string()),
        group: "apps".to_string(),
        version: "v1".to_string(),
        kind: "Deployment".to_string(),
        plural: "deployments".to_string(),
    };
    let mut d2 = d1.copy();
    d2.namespace = Some("other".to_string());
    assert!(KubeFileNode::ApiResourceDirectory(d1) == KubeFileNode::ApiResourceDirectory(d2));
}

#[test]
fn file_names_follow_the_node_kind() {
    assert_eq!(KubeFileNode::ClusterInfoFile.get_file_name(), "cluster_info");
    assert_eq!(KubeFileNode::LogFile(res("u", "p")).get_file_name(), "logs");
    assert_eq!(file("u", "pod-1").get_file_name(), "pod-1.yml");
    assert_eq!(KubeFileNode::ResourceDirectory(res("u", "kube-system")).get_file_name(), "kube-system");
    let mut n = KubeApiResourceNode {
        namespace: None,
        group: String::new(),
        version: "v1".to_string(),
        kind: "Pod".to_string(),
        plural: "pods".to_string(),
    };
    assert_eq!(n.name(), "pods");
    n.plural = String::new();
    assert_eq!(n.name(), "Pod");
}

fn names(v: &[(String, KubeFileAttr)]) -> Vec<String> {
    v.iter().map(|(n, _)| n.clone()).collect()
}

#[test]
fn root_lists_namespaces_as_directory_and_file() {
    let mut vfs = KubeVirtualFs::new(vec![]);
    assert!(matches!(vfs.fetch_request(ROOT_INODE), Ok(FetchRequest::Namespaces)));
    let ns = vec![obj("u1", "default"), obj("u2", "kube-system")];
    let listing = vfs.list_files_two(ROOT_INODE, &ns).unwrap();
    assert_eq!(
        names(&listing),
        vec![".", "..", "cluster_info", "default", "default.yml", "kube-system", "kube-system.yml"]
    );
    assert_eq!(listing[3].1.kind, KubeFileType::Directory);
    assert_eq!(listing[4].1.kind, KubeFileType::RegularFile);
    assert_eq!(listing[2].1.uid, 10000);
}

#[test]
fn namespace_without_uid_is_a_provider_error() {
    let mut vfs = KubeVirtualFs::new(vec![]);
    let ns = vec![obj("u1", "default"), ObjectInfo { uid: None, name: "x".to_string(), namespace: None }];
    assert_eq!(vfs.list_files_two(ROOT_INODE, &ns).err(), Some(VfsError::ProviderError));
    assert_eq!(vfs.list_files_two(ROOT_INODE, &vec![]).unwrap().len(), 3);
}

#[test]
fn namespace_directory_lists_scoped_kinds() {
    let mut vfs = KubeVirtualFs::new(vec![
        api("Deployment", "deployments", true),
        api("ClusterRole", "clusterroles", false),
        api("ReplicaSet", "", true),
    ]);
    let ns = vec![obj("u1", "default")];
    vfs.list_files_two(ROOT_INODE, &ns).unwrap();
    let (_, attr) = vfs.get_file_from_parent_by_name_two(ROOT_INODE, "default", &ns).unwrap();
    assert_eq!(attr.kind, KubeFileType::Directory);
    assert!(matches!(vfs.fetch_request(attr.ino), Ok(FetchRequest::Nothing)));
    let listing = vfs.list_files_two(attr.ino, &vec![]).unwrap();
    assert_eq!(names(&listing), vec![".", "..", "deployments", "ReplicaSet"]);
    let deploy = listing[2].1.ino;
    match vfs.fetch_request(deploy) {
        Ok(FetchRequest::Resources { namespace, api_index }) => {
            assert_eq!(namespace, "default");
            assert_eq!(api_index, 0);
        }
        _ => panic!("expected a resource listing"),
    }
    let pods = vec![obj("uid-web-1", "web-1"), obj("uid-web-2", "web-2")];
    let files = vfs.list_files_two(deploy, &pods).unwrap();
    assert_eq!(names(&files), vec![".", "..", "web-1.yml", "web-2.yml"]);
    let manifest = vfs.get_kube_manifest(files[3].1.ino).unwrap();
    assert_eq!(manifest.uuid, "uid-web-2");
    assert_eq!(manifest.kind, "Deployment");
}

#[test]
fn lookup_of_unknown_name_is_not_found() {
    let mut vfs = KubeVirtualFs::new(vec![]);
    let ns = vec![obj("u1", "default")];
    assert_eq!(
        vfs.get_file_from_parent_by_name_two(ROOT_INODE, "nope", &ns).err(),
        Some(VfsError::NotFound)
    );
    assert_eq!(vfs.get_file_from_parent_by_name_two(77, "default", &ns).err(), Some(VfsError::NotFound));
    let (name, attr) = vfs.get_file_from_parent_by_name_two(ROOT_INODE, "default.yml", &ns).unwrap();
    assert_eq!(name, "default.yml");
    assert_eq!(attr.size, 10000);
    assert_eq!(attr.perm, 0o655);
}

#[test]
fn getattr_projects_the_node_kind() {
    let vfs = KubeVirtualFs::new(vec![]);
    let (name, attr) = vfs.get_file(ROOT_INODE).unwrap();
    assert_eq!(name, "default");
    assert_eq!(attr.ino, 1);
    assert_eq!(attr.size, 0);
    assert_eq!(attr.perm, 0o755);
    assert_eq!(attr.kind, KubeFileType::Directory);
    assert!(vfs.get_file(0).is_none());
    assert!(vfs.get_file(2).is_none());
}

#[test]
fn read_of_a_non_file_fails() {
    let mut vfs = KubeVirtualFs::new(vec![]);
    assert_eq!(vfs.get_kube_manifest(ROOT_INODE).err(), Some(VfsError::WrongKind));
    assert_eq!(vfs.get_kube_manifest(40).err(), Some(VfsError::NotFound));
    vfs.list_files_two(ROOT_INODE, &vec![obj("u1", "default")]).unwrap();
    // 2 and 3 are the dot entries, 4 is cluster_info, 5 the namespace directory
    assert_eq!(vfs.get_kube_manifest(4).err(), Some(VfsError::WrongKind));
    assert_eq!(vfs.get_kube_manifest(5).err(), Some(VfsError::WrongKind));
    assert_eq!(vfs.get_kube_manifest(6).unwrap().name, "default");
}

#[test]
fn read_range_returns_the_tail_from_offset() {
    let content: Vec<u8> = b"kind: Pod\n".to_vec();
    assert_eq!(read_range(&content, 0, 4096), content);
    assert_eq!(read_range(&content, 6, 4096), b"Pod\n".to_vec());
    assert_eq!(read_range(&content, 6, 2), b"Po".to_vec());
    assert!(read_range(&content, 10, 4096).is_empty());
    assert!(read_range(&content, 11, 4096).is_empty());
}

fn entries(n: u64) -> Vec<(String, KubeFileAttr)> {
    (0..n)
        .map(|i| {
            (
                format!("c{}", i),
                KubeFileAttr {
                    ino: 100 + i,
                    size: 0,
                    kind: KubeFileType::RegularFile,
                    perm: 0o655,
                    nlink: 1,
                    uid: 1000,
                    gid: 1000,
                    blksize: 512,
                },
            )
        })
        .collect()
}

#[test]
fn readdir_pages_cover_every_entry_once() {
    let all = entries(10);
    let mut seen = Vec::new();
    let mut offset = 0u64;
    let mut sizes = Vec::new();
    loop {
        let page = readdir_page(&all, offset, 3);
        sizes.push(page.len());
        if page.is_empty() {
            break;
        }
        for e in &page {
            seen.push(e.name.clone());
        }
        offset = page.last().unwrap().offset;
    }
    assert_eq!(sizes, vec![3, 3, 3, 1, 0]);
    let expected: Vec<String> = (0..10).map(|i| format!("c{}", i)).collect();
    assert_eq!(seen, expected);
}

#[test]
fn readdir_resumes_at_the_given_offset() {
    let all = entries(5);
    let page = readdir_page(&all, 2, 10);
    let inos: Vec<u64> = page.iter().map(|e| e.ino).collect();
    let offsets: Vec<u64> = page.iter().map(|e| e.offset).collect();
    assert_eq!(inos, vec![102, 103, 104]);
    assert_eq!(offsets, vec![3, 4, 5]);
    assert!(readdir_page(&all, 5, 10).is_empty());
    assert!(readdir_page(&all, 0, 0).is_empty());
}

#[test]
fn readdir_on_the_root_reconciles_first() {
    let mut vfs = KubeVirtualFs::new(vec![]);
    let ns = vec![obj("u1", "a"), obj("u2", "b")];
    let page = readdir(&mut vfs, ROOT_INODE, 2, 2, &ns).unwrap();
    let names: Vec<String> = page.iter().map(|e| e.name.clone()).collect();
    assert_eq!(names, vec!["cluster_info", "a"]);
    assert_eq!(page[1].offset, 4);
    assert_eq!(readdir(&mut vfs, 99, 0, 2, &ns).err(), Some(VfsError::NotFound));
}

#[test]
fn a_manifest_file_has_no_children() {
    let mut vfs = KubeVirtualFs::new(vec![api("Deployment", "deployments", true)]);
    let ns = vec![obj("u1", "default")];
    let (_, f) = vfs.get_file_from_parent_by_name_two(ROOT_INODE, "default.yml", &ns).unwrap();
    assert!(matches!(vfs.fetch_request(f.ino), Ok(FetchRequest::Nothing)));
    assert_eq!(vfs.list_files_two(f.ino, &vec![]).unwrap().len(), 0);
}

#[test]
fn resource_directory_name_prefers_the_alias() {
    let mut d = kubefs::vfs::KubeApiResourceDirectory {
        name: "services".to_string(),
        namespace: "default".to_string(),
        alias: Some("svc".to_string()),
        api: api("Service", "services", true),
    };
    assert_eq!(d.get_name(), "svc");
    d.alias = None;
    assert_eq!(d.get_name(), "services");
}

#[test]
fn fetch_request_for_unknown_kind_is_a_provider_error() {
    let mut vfs = KubeVirtualFs::new(vec![api("Deployment", "deployments", true)]);
    assert_eq!(vfs.fetch_request(0).err(), Some(VfsError::NotFound));
    assert_eq!(vfs.fetch_request(9).err(), Some(VfsError::NotFound));
    let ns = vec![obj("u1", "default")];
    let (_, dir) = vfs.get_file_from_parent_by_name_two(ROOT_INODE, "default", &ns).unwrap();
    let (_, deploy) = vfs.get_file_from_parent_by_name_two(dir.ino, "deployments", &vec![]).unwrap();
    assert!(matches!(vfs.fetch_request(deploy.ino), Ok(FetchRequest::Resources { .. })));
    let other = KubeVirtualFs::new(vec![]);
    assert_eq!(other.fetch_request(deploy.ino).err(), Some(VfsError::NotFound));
}

#[test]
fn object_without_uid_leaves_the_listing_unchanged() {
    let mut vfs = KubeVirtualFs::new(vec![api("Deployment", "deployments", true)]);
    let ns = vec![obj("u1", "default")];
    let (_, dir) = vfs.get_file_from_parent_by_name_two(ROOT_INODE, "default", &ns).unwrap();
    let (_, deploy) = vfs.get_file_from_parent_by_name_two(dir.ino, "deployments", &vec![]).unwrap();
    let before = vfs.list_files_two(deploy.ino, &vec![obj("uid-web-1", "web-1")]).unwrap();
    let bad = vec![obj("uid-web-2", "web-2"), ObjectInfo { uid: None, name: "x".to_string(), namespace: None }];
    assert_eq!(vfs.list_files_two(deploy.ino, &bad).err(), Some(VfsError::ProviderError));
    let after = vfs.list_children(deploy.ino).unwrap();
    assert_eq!(names(&before), names(&after));
    assert_eq!(before[2].1.ino, after[2].1.ino);
}

#[test]
fn reconcile_of_a_missing_directory_does_nothing() {
    let mut arena = Arena::new();
    let dir = arena.add(KubeFileNode::Context("default".to_string()), None);
    reconcile(&mut arena, &NodeId::new(5), vec![file("a", "A")]);
    assert!(!arena.contains(&NodeId::new(2)));
    assert!(child_ids(&arena, &dir).is_empty());
}

#[test]
fn reconcile_touches_only_the_directory_level() {
    let mut arena = Arena::new();
    let dir = arena.add(KubeFileNode::Context("default".to_string()), None);
    let a = arena.add(file("a", "A"), Some(dir));
    let b = arena.add(file("b", "B"), Some(dir));
    let c = arena.add(file("c", "C"), Some(dir));
    let under_a = arena.add(file("x", "X"), Some(a));
    let deep_a = arena.add(file("y", "Y"), Some(under_a));
    let under_b = arena.add(file("z", "Z"), Some(b));
    reconcile(&mut arena, &dir, vec![file("c", "C2"), file("b", "B2"), file("d", "D")]);
    assert!(!arena.contains(&a));
    assert!(!arena.contains(&under_a));
    assert!(!arena.contains(&deep_a));
    assert!(arena.contains(&under_b));
    assert_eq!(arena.get(&under_b).unwrap().parent_id, Some(b));
    assert_eq!(child_ids(&arena, &b), vec![under_b.get()]);
    // kept children stay in their old order, then the new one
    assert_eq!(child_ids(&arena, &dir), vec![b.get(), c.get(), 8]);
    let added = arena.get(&NodeId::new(8)).unwrap();
    assert!(added.children_ids.is_empty());
    assert_eq!(added.parent_id, Some(dir));
    assert!(!arena.contains(&NodeId::new(9)));
    assert_eq!(arena.get(&dir).unwrap().payload.get_file_name(), "default");
}

#[test]
fn second_sync_with_the_same_listing_keeps_the_tree() {
    let mut vfs = KubeVirtualFs::new(vec![api("Deployment", "deployments", true)]);
    let ns = vec![obj("u1", "default"), obj("u2", "other")];
    let first = vfs.list_files_two(ROOT_INODE, &ns).unwrap();
    let (_, dir) = vfs.get_file_from_parent_by_name_two(ROOT_INODE, "default", &ns).unwrap();
    let second = vfs.list_files_two(ROOT_INODE, &ns).unwrap();
    let inos = |v: &Vec<(String, KubeFileAttr)>| v.iter().map(|(_, a)| a.ino).collect::<Vec<u64>>();
    assert_eq!(inos(&first), inos(&second));
    let (_, again) = vfs.get_file_from_parent_by_name_two(ROOT_INODE, "default", &ns).unwrap();
    assert_eq!(dir.ino, again.ino);
    assert!(vfs.get_file(dir.ino + 100).is_none());
}

#[test]
fn readdir_at_the_end_lists_nothing() {
    let mut vfs = KubeVirtualFs::new(vec![]);
    let ns = vec![obj("u1", "a"), obj("u2", "b")];
    let mut names = Vec::new();
    let mut offset = 0u64;
    for _ in 0..3 {
        let page = readdir(&mut vfs, ROOT_INODE, offset, 3, &ns).unwrap();
        for e in &page {
            names.push(e.name.clone());
        }
        if let Some(last) = page.last() {
            offset = last.offset;
        }
    }
    assert_eq!(names, vec![".", "..", "cluster_info", "a", "a.yml", "b", "b.yml"]);
    assert_eq!(offset, 7);
    assert!(readdir(&mut vfs, ROOT_INODE, 7, 3, &ns).unwrap().is_empty());
}

#[test]
fn find_by_uid_picks_the_first_match() {
    let objs = vec![
        obj("u1", "a"),
        ObjectInfo { uid: None, name: "b".to_string(), namespace: None },
        obj("u3", "c"),
        obj("u3", "d"),
    ];
    assert_eq!(find_by_uid(&objs, &"u3".to_string()), Some(2));
    assert_eq!(find_by_uid(&objs, &"u1".to_string()), Some(0));
    assert_eq!(find_by_uid(&objs, &"u9".to_string()), None);
}

#[test]
fn manifest_request_follows_the_object_kind() {
    let vfs = KubeVirtualFs::new(vec![
        api("Service", "services", true),
        api("Deployment", "deployments", true),
    ]);
    let ns = KubeResourceNode::new("u1", "default", "Namespace");
    assert!(matches!(vfs.manifest_request(&ns), Ok(FetchRequest::Namespaces)));
    let mut dep = KubeResourceNode::new("u2", "web", "Deployment");
    assert_eq!(vfs.manifest_request(&dep).err(), Some(VfsError::NotFound));
    dep.namespace = Some("prod".to_string());
    match vfs.manifest_request(&dep) {
        Ok(FetchRequest::Resources { namespace, api_index }) => {
            assert_eq!(namespace, "prod");
            assert_eq!(api_index, 1);
        }
        _ => panic!("expected a resource listing"),
    }
    let job = KubeResourceNode { namespace: Some("prod".to_string()), ..KubeResourceNode::new("u3", "j", "Job") };
    assert_eq!(vfs.manifest_request(&job).err(), Some(VfsError::NotFound));
}
