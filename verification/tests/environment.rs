//! Whole runs over a file system that lives in memory.

use buildenv::config::Vars;
use buildenv::error::{Error, Warning};
use buildenv::planner::BuildEnv;
use buildenv::realize::Action;
use buildenv::run::{run, Outcome};
use buildenv::world::{FileFacts, FileKind, FileStatus, World};
use std::collections::{BTreeMap, BTreeSet};

#[derive(Clone)]
enum Node {
    File { content: Vec<u8>, mode: u32 },
    Dir,
    Link { to: String },
}

/// A file system in memory, and what a run made of it.
struct TestEnv {
    store_dir: String,
    out_dir: String,
    nodes: BTreeMap<String, Node>,
    dirs: BTreeSet<String>,
    links: BTreeMap<String, String>,
    warnings: Vec<Warning>,
    nr_links: usize,
}

fn parent_of(path: &str) -> Option<String> {
    path.rfind('/').map(|i| path[..i].to_string())
}

impl TestEnv {
    fn new(test_name: &str) -> Self {
        let temp_dir = format!("/tmp/buildenv-test-{}", test_name);
        let mut env = TestEnv {
            store_dir: format!("{}/store", temp_dir),
            out_dir: format!("{}/out", temp_dir),
            nodes: BTreeMap::new(),
            dirs: BTreeSet::new(),
            links: BTreeMap::new(),
            warnings: Vec::new(),
            nr_links: 0,
        };
        let store = env.store_dir.clone();
        env.make_dirs(&store);
        env
    }

    fn make_dirs(&mut self, path: &str) {
        let mut cur = path.to_string();
        loop {
            if cur.is_empty() {
                break;
            }
            self.nodes.entry(cur.clone()).or_insert(Node::Dir);
            match parent_of(&cur) {
                Some(p) => cur = p,
                None => break,
            }
        }
    }

    fn put(&mut self, path: &str, node: Node) {
        if let Some(p) = parent_of(path) {
            self.make_dirs(&p);
        }
        self.nodes.insert(path.to_string(), node);
    }

    fn create_package(&mut self, name: &str) -> String {
        let pkg_dir = format!("{}/{}", self.store_dir, name);
        self.make_dirs(&pkg_dir);
        pkg_dir
    }

    fn add_file(&mut self, pkg_dir: &str, rel_path: &str, content: &str) {
        self.add_file_with_perms(pkg_dir, rel_path, content, 0o644);
    }

    fn add_dir(&mut self, pkg_dir: &str, rel_path: &str) {
        self.make_dirs(&format!("{}/{}", pkg_dir, rel_path));
    }

    fn add_symlink(&mut self, pkg_dir: &str, rel_path: &str, target: &str) {
        self.put(&format!("{}/{}", pkg_dir, rel_path), Node::Link { to: target.to_string() });
    }

    fn add_file_with_perms(&mut self, pkg_dir: &str, rel_path: &str, content: &str, mode: u32) {
        let node = Node::File { content: content.as_bytes().to_vec(), mode: 0o100000 | mode };
        self.put(&format!("{}/{}", pkg_dir, rel_path), node);
    }

    fn add_propagated(&mut self, pkg_dir: &str, deps: &[&str]) {
        let content = deps.join(" ");
        self.add_file(pkg_dir, "nix-support/propagated-user-env-packages", &content);
    }

    /// Where a path leads once its links are followed, if it leads anywhere.
    fn resolve(&self, path: &str) -> Option<String> {
        let mut cur = path.to_string();
        for _ in 0..40 {
            match self.nodes.get(&cur) {
                None => return None,
                Some(Node::Link { to }) => {
                    cur = if to.starts_with('/') {
                        to.clone()
                    } else {
                        format!("{}/{}", parent_of(&cur).unwrap_or_default(), to)
                    };
                },
                Some(_) => return Some(cur),
            }
        }
        None
    }

    fn facts(&self, path: &str) -> FileFacts {
        let node = self.nodes.get(path).expect("a recorded path");
        let (symlink, link_text) = match node {
            Node::Link { to } => (true, Some(to.clone())),
            _ => (false, None),
        };
        let canonical = self.resolve(path);
        let resolved = canonical.as_ref().map(|p| self.nodes[p].clone());
        let status = match &resolved {
            Some(Node::File { mode, .. }) => Some(FileStatus { kind: FileKind::File, mode: *mode }),
            Some(Node::Dir) => Some(FileStatus { kind: FileKind::Dir, mode: 0o40755 }),
            _ => None,
        };
        let entries = match (&resolved, &canonical) {
            (Some(Node::Dir), Some(dir)) => {
                let prefix = format!("{}/", dir);
                Ok(self
                    .nodes
                    .keys()
                    .filter(|k| k.starts_with(&prefix) && !k[prefix.len()..].contains('/'))
                    .map(|k| k[prefix.len()..].to_string())
                    .collect())
            },
            _ => Err("Not a directory".to_string()),
        };
        let content = match &resolved {
            Some(Node::File { content, .. }) => Ok(content.clone()),
            _ => Err("Is a directory".to_string()),
        };
        FileFacts { symlink, link_text, status, canonical, entries, broken: None, content }
    }

    fn world(&self) -> World {
        let mut world = World::new();
        for path in self.nodes.keys() {
            world.insert(path.clone(), self.facts(path));
        }
        world
    }

    fn create_packages_json(&self, packages: &[(&str, i32)]) -> String {
        let items: Vec<String> = packages
            .iter()
            .map(|(path, priority)| format!("{{\"paths\":[\"{}\"],\"priority\":{}}}", path, priority))
            .collect();
        format!("[{}]", items.join(","))
    }

    fn perform(&mut self, outcome: &Outcome) {
        for action in &outcome.actions {
            match action {
                Action::CreateDir { path } => self.note_dirs(path),
                Action::Symlink { target, link } => {
                    if let Some(p) = parent_of(link) {
                        self.note_dirs(&p);
                    }
                    assert!(!self.dirs.contains(link), "a link over a directory: {}", link);
                    let old = self.links.insert(link.clone(), target.clone());
                    assert!(old.is_none(), "two links at {}", link);
                },
            }
        }
        self.nr_links = outcome.nr_links;
    }

    fn note_dirs(&mut self, path: &str) {
        let mut cur = path.to_string();
        while !cur.is_empty() && !self.dirs.contains(&cur) {
            assert!(!self.links.contains_key(&cur), "a directory over a link: {}", cur);
            self.dirs.insert(cur.clone());
            match parent_of(&cur) {
                Some(p) => cur = p,
                None => break,
            }
        }
    }

    /// Runs the planner with the given variables and performs what it asks for.
    fn run_buildenv(&mut self, env_vars: Vec<(&str, &str)>) -> Result<(), String> {
        let mut vars = Vars {
            out: Some(self.out_dir.clone()),
            extra_prefix: None,
            paths_to_link: None,
            ignore_collisions: None,
            check_collision_contents: None,
            ignore_single_file_outputs: None,
            pkgs: None,
            pkgs_path: None,
            extra_paths_from: None,
            manifest: None,
            store_dir: Some(self.store_dir.clone()),
        };
        for (key, value) in env_vars {
            let value = Some(value.to_string());
            match key {
                "out" => vars.out = value,
                "extraPrefix" => vars.extra_prefix = value,
                "pathsToLink" => vars.paths_to_link = value,
                "ignoreCollisions" => vars.ignore_collisions = value,
                "checkCollisionContents" => vars.check_collision_contents = value,
                "ignoreSingleFileOutputs" => vars.ignore_single_file_outputs = value,
                "pkgs" => vars.pkgs = value,
                "pkgsPath" => vars.pkgs_path = value,
                "extraPathsFrom" => vars.extra_paths_from = value,
                "manifest" => vars.manifest = value,
                "storeDir" => vars.store_dir = value,
                _ => panic!("unknown variable {}", key),
            }
        }
        let world = self.world();
        match run(vars, &world) {
            Ok((outcome, planner)) => {
                self.perform(&outcome);
                let planner: BuildEnv = planner;
                self.warnings = planner.warnings;
                Ok(())
            },
            Err(e) => {
                let e: Error = e;
                Err(format!("Error: {}", e.message()))
            },
        }
    }

    fn out_path(&self, rel_path: &str) -> String {
        let rel = rel_path.trim_start_matches('/');
        if rel.is_empty() {
            self.out_dir.clone()
        } else {
            format!("{}/{}", self.out_dir, rel)
        }
    }

    fn check_symlink(&self, rel_path: &str, expected_target: &str) -> bool {
        self.links.get(&self.out_path(rel_path)).map(|t| t == expected_target).unwrap_or(false)
    }

    fn check_dir(&self, rel_path: &str) -> bool {
        self.dirs.contains(&self.out_path(rel_path))
    }

    fn check_exists(&self, rel_path: &str) -> bool {
        let path = self.out_path(rel_path);
        self.dirs.contains(&path) || self.links.contains_key(&path)
    }

    fn is_symlink(&self, rel_path: &str) -> bool {
        self.links.contains_key(&self.out_path(rel_path))
    }
}

#[test]
fn test_basic_single_package() {
    let mut env = TestEnv::new("basic-single");
    let pkg1 = env.create_package("pkg1");
    env.add_file(&pkg1, "bin/hello", "#!/bin/sh\necho hello");
    env.add_file(&pkg1, "share/doc/hello.txt", "Hello documentation");
    let pkgs_json = env.create_packages_json(&[(&pkg1, 0)]);

    let result = env.run_buildenv(vec![("pkgs", &pkgs_json), ("pathsToLink", "/")]);

    assert!(result.is_ok(), "buildenv failed: {:?}", result);
    assert!(env.check_symlink("/bin/hello", &format!("{}/bin/hello", pkg1)));
    assert!(env.check_symlink("/share/doc/hello.txt", &format!("{}/share/doc/hello.txt", pkg1)));
    assert_eq!(env.nr_links, 2);
    assert!(env.warnings.is_empty());
}

#[test]
fn test_multiple_packages_no_collision() {
    let mut env = TestEnv::new("multiple-no-collision");
    let pkg1 = env.create_package("pkg1");
    env.add_file(&pkg1, "bin/app1", "#!/bin/sh\necho app1");
    env.add_file(&pkg1, "share/doc/app1.txt", "App1 documentation");
    let pkg2 = env.create_package("pkg2");
    env.add_file(&pkg2, "bin/app2", "#!/bin/sh\necho app2");
    env.add_file(&pkg2, "share/doc/app2.txt", "App2 documentation");
    let pkgs_json = env.create_packages_json(&[(&pkg1, 0), (&pkg2, 0)]);

    let result = env.run_buildenv(vec![("pkgs", &pkgs_json), ("pathsToLink", "/")]);

    assert!(result.is_ok(), "buildenv failed: {:?}", result);
    assert!(env.check_symlink("/bin/app1", &format!("{}/bin/app1", pkg1)));
    assert!(env.check_symlink("/bin/app2", &format!("{}/bin/app2", pkg2)));
    assert!(env.check_dir("/share/doc"));
}

#[test]
fn test_collision_with_same_content() {
    let mut env = TestEnv::new("collision-same-content");
    let pkg1 = env.create_package("pkg1");
    env.add_file(&pkg1, "bin/common", "#!/bin/sh\necho common");
    let pkg2 = env.create_package("pkg2");
    env.add_file(&pkg2, "bin/common", "#!/bin/sh\necho common");
    let pkgs_json = env.create_packages_json(&[(&pkg1, 0), (&pkg2, 0)]);

    let result = env.run_buildenv(vec![
        ("pkgs", &pkgs_json),
        ("pathsToLink", "/"),
        ("checkCollisionContents", "1"),
    ]);

    assert!(result.is_ok(), "buildenv failed: {:?}", result);
    assert!(env.check_exists("/bin/common"));
    assert!(env.check_symlink("/bin/common", &format!("{}/bin/common", pkg1)));
    assert!(env.warnings.is_empty());
}

#[test]
fn test_collision_with_different_content() {
    let mut env = TestEnv::new("collision-different-content");
    let pkg1 = env.create_package("pkg1");
    env.add_file(&pkg1, "bin/conflict", "#!/bin/sh\necho version1");
    let pkg2 = env.create_package("pkg2");
    env.add_file(&pkg2, "bin/conflict", "#!/bin/sh\necho version2");
    let pkgs_json = env.create_packages_json(&[(&pkg1, 0), (&pkg2, 0)]);

    let result = env.run_buildenv(vec![
        ("pkgs", &pkgs_json),
        ("pathsToLink", "/"),
        ("ignoreCollisions", "0"),
    ]);

    assert!(result.is_err(), "buildenv should have failed due to collision");
    let message = result.unwrap_err();
    assert!(message.contains("collision"));
    assert_eq!(
        message,
        format!(
            "Error: collision between `{}/bin/conflict' and `{}/bin/conflict'",
            pkg1, pkg2
        )
    );
}

#[test]
fn test_collision_with_ignore() {
    let mut env = TestEnv::new("collision-with-ignore");
    let pkg1 = env.create_package("pkg1");
    env.add_file(&pkg1, "bin/conflict", "#!/bin/sh\necho version1");
    let pkg2 = env.create_package("pkg2");
    env.add_file(&pkg2, "bin/conflict", "#!/bin/sh\necho version2");
    let pkgs_json = env.create_packages_json(&[(&pkg1, 0), (&pkg2, 0)]);

    let result = env.run_buildenv(vec![
        ("pkgs", &pkgs_json),
        ("pathsToLink", "/"),
        ("ignoreCollisions", "1"),
    ]);

    assert!(result.is_ok(), "buildenv failed: {:?}", result);
    assert!(env.check_symlink("/bin/conflict", &format!("{}/bin/conflict", pkg1)));
    assert_eq!(env.warnings.len(), 1);
    assert!(matches!(&env.warnings[0], Warning::Collision { new, old }
        if *new == format!("`{}/bin/conflict'", pkg2) && *old == format!("`{}/bin/conflict'", pkg1)));
}

#[test]
fn test_priority_handling() {
    let mut env = TestEnv::new("priority");
    let pkg1 = env.create_package("pkg1");
    env.add_file(&pkg1, "bin/app", "#!/bin/sh\necho low-priority");
    let pkg2 = env.create_package("pkg2");
    env.add_file(&pkg2, "bin/app", "#!/bin/sh\necho high-priority");
    let pkgs_json = env.create_packages_json(&[(&pkg1, 10), (&pkg2, 5)]);

    let result = env.run_buildenv(vec![
        ("pkgs", &pkgs_json),
        ("pathsToLink", "/"),
        ("ignoreCollisions", "1"),
    ]);

    assert!(result.is_ok(), "buildenv failed: {:?}", result);
    assert!(env.check_symlink("/bin/app", &format!("{}/bin/app", pkg2)));
}

#[test]
fn test_paths_to_link_filtering() {
    let mut env = TestEnv::new("paths-to-link");
    let pkg1 = env.create_package("pkg1");
    env.add_file(&pkg1, "bin/app", "#!/bin/sh\necho app");
    env.add_file(&pkg1, "share/doc/readme.txt", "Documentation");
    env.add_file(&pkg1, "lib/libfoo.so", "library");
    let pkgs_json = env.create_packages_json(&[(&pkg1, 0)]);

    let result = env.run_buildenv(vec![("pkgs", &pkgs_json), ("pathsToLink", "/bin /share")]);

    assert!(result.is_ok(), "buildenv failed: {:?}", result);
    assert!(env.check_symlink("/bin/app", &format!("{}/bin/app", pkg1)));
    assert!(env.check_exists("/share/doc/readme.txt"));
    assert!(!env.check_exists("/lib/libfoo.so"));
    assert!(!env.check_exists("/lib"));
}

#[test]
fn test_propagated_packages() {
    let mut env = TestEnv::new("propagated");
    let dep = env.create_package("dep");
    env.add_file(&dep, "lib/libdep.so", "dependency library");
    let pkg = env.create_package("pkg");
    env.add_file(&pkg, "bin/app", "#!/bin/sh\necho app");
    env.add_propagated(&pkg, &[&dep]);
    let pkgs_json = env.create_packages_json(&[(&pkg, 0)]);

    let result = env.run_buildenv(vec![("pkgs", &pkgs_json), ("pathsToLink", "/")]);

    assert!(result.is_ok(), "buildenv failed: {:?}", result);
    assert!(env.check_symlink("/bin/app", &format!("{}/bin/app", pkg)));
    assert!(env.check_symlink("/lib/libdep.so", &format!("{}/lib/libdep.so", dep)));
}

#[test]
fn test_extra_prefix() {
    let mut env = TestEnv::new("extra-prefix");
    let pkg1 = env.create_package("pkg1");
    env.add_file(&pkg1, "bin/app", "#!/bin/sh\necho app");
    let pkgs_json = env.create_packages_json(&[(&pkg1, 0)]);

    let result = env.run_buildenv(vec![
        ("pkgs", &pkgs_json),
        ("pathsToLink", "/"),
        ("extraPrefix", "/usr/local"),
    ]);

    assert!(result.is_ok(), "buildenv failed: {:?}", result);
    assert!(env.check_exists("usr/local/bin/app"));
    assert!(env.is_symlink("usr/local/bin/app"));
}

#[test]
fn test_manifest_creation() {
    let mut env = TestEnv::new("manifest");
    let pkg1 = env.create_package("pkg1");
    env.add_file(&pkg1, "bin/app", "#!/bin/sh\necho app");
    let manifest_file = "/tmp/buildenv-test-manifest/manifest.nix".to_string();
    env.put(&manifest_file, Node::File { content: b"{ test = true; }".to_vec(), mode: 0o100644 });
    let pkgs_json = env.create_packages_json(&[(&pkg1, 0)]);

    let result = env.run_buildenv(vec![
        ("pkgs", &pkgs_json),
        ("pathsToLink", "/"),
        ("manifest", &manifest_file),
    ]);

    assert!(result.is_ok(), "buildenv failed: {:?}", result);
    assert!(env.check_exists("manifest"));
    assert!(env.is_symlink("manifest"));
    assert!(env.check_symlink("manifest", &manifest_file));
    assert_eq!(env.nr_links, 1);
}

#[test]
fn test_dangling_symlink() {
    let mut env = TestEnv::new("dangling-symlink");
    let pkg1 = env.create_package("pkg1");
    env.add_symlink(&pkg1, "bin/broken", "/nonexistent/target");
    let pkgs_json = env.create_packages_json(&[(&pkg1, 0)]);

    let result = env.run_buildenv(vec![("pkgs", &pkgs_json), ("pathsToLink", "/")]);

    assert!(result.is_ok(), "buildenv failed: {:?}", result);
    assert!(env.is_symlink("bin/broken"));
    assert_eq!(env.warnings.len(), 1);
    assert!(matches!(&env.warnings[0], Warning::DanglingSymlink { link, target, points_to }
        if *link == format!("{}/bin/broken", env.out_dir)
            && *target == format!("{}/bin/broken", pkg1)
            && points_to == "/nonexistent/target"));
}

#[test]
fn test_directory_merging() {
    let mut env = TestEnv::new("directory-merging");
    let pkg1 = env.create_package("pkg1");
    env.add_file(&pkg1, "share/icons/app1.png", "icon1");
    env.add_file(&pkg1, "share/doc/app1.txt", "doc1");
    let pkg2 = env.create_package("pkg2");
    env.add_file(&pkg2, "share/icons/app2.png", "icon2");
    env.add_file(&pkg2, "share/man/app2.1", "man2");
    let pkgs_json = env.create_packages_json(&[(&pkg1, 0), (&pkg2, 0)]);

    let result = env.run_buildenv(vec![("pkgs", &pkgs_json), ("pathsToLink", "/")]);

    assert!(result.is_ok(), "buildenv failed: {:?}", result);
    assert!(env.check_dir("/share"));
    assert!(env.check_dir("/share/icons"));
    assert!(env.check_symlink("/share/icons/app1.png", &format!("{}/share/icons/app1.png", pkg1)));
    assert!(env.check_symlink("/share/icons/app2.png", &format!("{}/share/icons/app2.png", pkg2)));
    assert!(env.check_symlink("/share/doc/app1.txt", &format!("{}/share/doc/app1.txt", pkg1)));
    assert!(env.check_symlink("/share/man/app2.1", &format!("{}/share/man/app2.1", pkg2)));
}

#[test]
fn test_ignore_single_file_outputs() {
    let mut env = TestEnv::new("single-file-outputs");
    let file_pkg = format!("{}/single-file", env.store_dir);
    env.put(&file_pkg, Node::File { content: b"I am a file package".to_vec(), mode: 0o100644 });
    let pkgs_json = env.create_packages_json(&[(&file_pkg, 0)]);

    let result = env.run_buildenv(vec![
        ("pkgs", &pkgs_json),
        ("pathsToLink", "/"),
        ("ignoreSingleFileOutputs", "0"),
    ]);

    assert!(result.is_err(), "buildenv should have failed for single file");
    assert!(result.unwrap_err().contains("is a file and can't be merged"));

    let mut env2 = TestEnv::new("single-file-outputs-ignore");
    let file_pkg2 = format!("{}/single-file", env2.store_dir);
    env2.put(&file_pkg2, Node::File { content: b"I am a file package".to_vec(), mode: 0o100644 });
    let pkgs_json2 = env2.create_packages_json(&[(&file_pkg2, 0)]);

    let result2 = env2.run_buildenv(vec![
        ("pkgs", &pkgs_json2),
        ("pathsToLink", "/"),
        ("ignoreSingleFileOutputs", "1"),
    ]);

    assert!(result2.is_ok(), "buildenv failed: {:?}", result2);
    assert_eq!(env2.nr_links, 0);
    assert!(env2.links.is_empty());
    assert_eq!(env2.warnings.len(), 1);
    assert!(matches!(&env2.warnings[0], Warning::SingleFileOutput { path } if *path == file_pkg2));
}

#[test]
fn test_permission_preservation() {
    let mut env = TestEnv::new("permissions");
    let pkg1 = env.create_package("pkg1");
    env.add_file_with_perms(&pkg1, "bin/executable", "#!/bin/sh\necho exec", 0o755);
    env.add_file_with_perms(&pkg1, "etc/config", "configuration", 0o644);
    let pkgs_json = env.create_packages_json(&[(&pkg1, 0)]);

    let result = env.run_buildenv(vec![("pkgs", &pkgs_json), ("pathsToLink", "/")]);

    assert!(result.is_ok(), "buildenv failed: {:?}", result);
    assert!(env.check_symlink("/bin/executable", &format!("{}/bin/executable", pkg1)));
    assert!(env.check_symlink("/etc/config", &format!("{}/etc/config", pkg1)));
}

#[test]
fn test_extra_paths_from_file() {
    let mut env = TestEnv::new("extra-paths");
    let pkg1 = env.create_package("pkg1");
    env.add_file(&pkg1, "bin/main", "#!/bin/sh\necho main");
    let extra1 = env.create_package("extra1");
    env.add_file(&extra1, "lib/libextra1.so", "extra library 1");
    let extra2 = env.create_package("extra2");
    env.add_file(&extra2, "lib/libextra2.so", "extra library 2");
    let extra_paths_file = "/tmp/buildenv-test-extra-paths/extra-paths".to_string();
    let extra_paths_content = format!("{}\n{}\n", extra1, extra2);
    env.put(
        &extra_paths_file,
        Node::File { content: extra_paths_content.into_bytes(), mode: 0o100644 },
    );
    let pkgs_json = env.create_packages_json(&[(&pkg1, 0)]);

    let result = env.run_buildenv(vec![
        ("pkgs", &pkgs_json),
        ("pathsToLink", "/"),
        ("extraPathsFrom", &extra_paths_file),
    ]);

    assert!(result.is_ok(), "buildenv failed: {:?}", result);
    assert!(env.check_symlink("/bin/main", &format!("{}/bin/main", pkg1)));
    assert!(env.check_symlink("/lib/libextra1.so", &format!("{}/lib/libextra1.so", extra1)));
    assert!(env.check_symlink("/lib/libextra2.so", &format!("{}/lib/libextra2.so", extra2)));
}

#[test]
fn test_skipped_paths() {
    let mut env = TestEnv::new("skipped-paths");
    let pkg1 = env.create_package("pkg1");
    env.add_file(&pkg1, "bin/app", "#!/bin/sh\necho app");
    env.add_file(&pkg1, "nix-support/setup-hook", "# setup hook");
    env.add_file(&pkg1, "propagated-build-inputs", "deps");
    env.add_file(&pkg1, "share/info/dir", "info directory");
    env.add_file(&pkg1, "share/mime/globs", "mime globs");
    env.add_file(&pkg1, "share/mime/packages/app.xml", "mime package");
    env.add_file(&pkg1, "lib/perl5/perllocal.pod", "perl local");
    let pkgs_json = env.create_packages_json(&[(&pkg1, 0)]);

    let result = env.run_buildenv(vec![("pkgs", &pkgs_json), ("pathsToLink", "/")]);

    assert!(result.is_ok(), "buildenv failed: {:?}", result);
    assert!(env.check_symlink("/bin/app", &format!("{}/bin/app", pkg1)));
    assert!(env.check_symlink(
        "/share/mime/packages/app.xml",
        &format!("{}/share/mime/packages/app.xml", pkg1)
    ));
    assert!(!env.check_exists("/nix-support"));
    assert!(!env.check_exists("/propagated-build-inputs"));
    assert!(!env.check_exists("/share/info/dir"));
    assert!(!env.check_exists("/share/mime/globs"));
    assert!(!env.check_exists("/lib/perl5/perllocal.pod"));
}

#[test]
fn test_empty_package_list() {
    let mut env = TestEnv::new("empty-packages");

    let result = env.run_buildenv(vec![("pathsToLink", "/")]);

    assert!(result.is_err(), "buildenv should have failed without packages");
    assert!(result.unwrap_err().contains("No packages specified"));
}

#[test]
fn test_collision_different_permissions() {
    let mut env = TestEnv::new("collision-permissions");
    let pkg1 = env.create_package("pkg1");
    env.add_file_with_perms(&pkg1, "bin/app", "#!/bin/sh\necho app", 0o755);
    let pkg2 = env.create_package("pkg2");
    env.add_file_with_perms(&pkg2, "bin/app", "#!/bin/sh\necho app", 0o644);
    let pkgs_json = env.create_packages_json(&[(&pkg1, 0), (&pkg2, 0)]);

    let result = env.run_buildenv(vec![
        ("pkgs", &pkgs_json),
        ("pathsToLink", "/"),
        ("checkCollisionContents", "1"),
    ]);

    assert!(result.is_err(), "buildenv should have failed due to different permissions");
    assert!(result.unwrap_err().contains("collision"));
}

#[test]
fn test_symlink_to_symlink() {
    let mut env = TestEnv::new("symlink-chain");
    let pkg1 = env.create_package("pkg1");
    env.add_file(&pkg1, "lib/libfoo.so.1.0", "library content");
    env.add_symlink(&pkg1, "lib/libfoo.so.1", "libfoo.so.1.0");
    env.add_symlink(&pkg1, "lib/libfoo.so", "libfoo.so.1");
    let pkgs_json = env.create_packages_json(&[(&pkg1, 0)]);

    let result = env.run_buildenv(vec![("pkgs", &pkgs_json), ("pathsToLink", "/")]);

    assert!(result.is_ok(), "buildenv failed: {:?}", result);
    assert!(env.check_symlink("/lib/libfoo.so.1.0", &format!("{}/lib/libfoo.so.1.0", pkg1)));
    assert!(env.check_symlink("/lib/libfoo.so.1", &format!("{}/lib/libfoo.so.1", pkg1)));
    assert!(env.check_symlink("/lib/libfoo.so", &format!("{}/lib/libfoo.so", pkg1)));
}

#[test]
fn test_nested_paths_to_link() {
    let mut env = TestEnv::new("nested-paths");
    let pkg1 = env.create_package("pkg1");
    env.add_file(&pkg1, "share/doc/app/README", "readme");
    env.add_file(&pkg1, "share/doc/app/LICENSE", "license");
    env.add_file(&pkg1, "share/man/man1/app.1", "manpage");
    env.add_file(&pkg1, "etc/app/config", "config");
    let pkgs_json = env.create_packages_json(&[(&pkg1, 0)]);

    let result = env.run_buildenv(vec![("pkgs", &pkgs_json), ("pathsToLink", "/share/doc")]);

    assert!(result.is_ok(), "buildenv failed: {:?}", result);
    assert!(env.check_dir("/share"));
    assert!(env.check_dir("/share/doc"));
    assert!(env.check_exists("/share/doc/app/README"));
    assert!(env.check_exists("/share/doc/app/LICENSE"));
    assert!(!env.check_exists("/share/man"));
    assert!(!env.check_exists("/etc"));
}

#[test]
fn test_empty_directories() {
    let mut env = TestEnv::new("empty-dirs");
    let pkg1 = env.create_package("pkg1");
    env.add_dir(&pkg1, "share/empty");
    env.add_dir(&pkg1, "share/icons/hicolor/48x48/apps");
    env.add_file(&pkg1, "share/icons/hicolor/48x48/apps/app1.png", "icon1");
    let pkg2 = env.create_package("pkg2");
    env.add_dir(&pkg2, "share/empty");
    env.add_dir(&pkg2, "share/icons/hicolor/32x32/apps");
    env.add_file(&pkg2, "share/icons/hicolor/32x32/apps/app2.png", "icon2");
    let pkgs_json = env.create_packages_json(&[(&pkg1, 0), (&pkg2, 0)]);

    let result = env.run_buildenv(vec![("pkgs", &pkgs_json), ("pathsToLink", "/")]);

    assert!(result.is_ok(), "buildenv failed: {:?}", result);
    assert!(env.check_dir("/share/empty"));
    assert!(env.check_dir("/share/icons/hicolor/48x48/apps"));
    assert!(env.check_dir("/share/icons/hicolor/32x32/apps"));
    assert!(env.check_exists("/share/icons/hicolor/48x48/apps/app1.png"));
    assert!(env.check_exists("/share/icons/hicolor/32x32/apps/app2.png"));
}
