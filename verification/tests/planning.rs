//! Folding candidates, directories and packages into the plan.

use buildenv::config::Config;
use buildenv::error::{Error, Warning};
use buildenv::plan::{Plan, PlanEntry};
use buildenv::planner::BuildEnv;
use buildenv::world::{FileFacts, FileKind, FileStatus, World};

fn config(paths_to_link: &[&str]) -> Config {
    Config {
        out: "/out".to_string(),
        extra_prefix: String::new(),
        paths_to_link: paths_to_link.iter().map(|p| p.to_string()).collect(),
        ignore_collisions: false,
        check_collision_contents: true,
        ignore_single_file_outputs: false,
        pkgs: None,
        pkgs_path: None,
        extra_paths_from: None,
        manifest: String::new(),
        store_dir: "/s".to_string(),
    }
}

fn file(world: &mut World, path: &str, content: &str) {
    file_with_mode(world, path, content, 0o644);
}

fn file_with_mode(world: &mut World, path: &str, content: &str, mode: u32) {
    world.insert(
        path.to_string(),
        FileFacts::regular(path.to_string(), 0o100000 | mode, content.as_bytes().to_vec()),
    );
}

fn dir(world: &mut World, path: &str, names: &[&str]) {
    world.insert(
        path.to_string(),
        FileFacts::directory(
            path.to_string(),
            0o40755,
            names.iter().map(|n| n.to_string()).collect(),
        ),
    );
}

/// A symbolic link at `path` that leads to the file at `to`.
fn link_to_file(world: &mut World, path: &str, to: &str, content: &str) {
    world.insert(
        path.to_string(),
        FileFacts {
            symlink: true,
            link_text: Some(to.to_string()),
            status: Some(FileStatus { kind: FileKind::File, mode: 0o100644 }),
            canonical: Some(to.to_string()),
            entries: Err("Not a directory".to_string()),
            broken: None,
            content: Ok(content.as_bytes().to_vec()),
        },
    );
}

fn special(world: &mut World, path: &str, kind: u32) {
    world.insert(
        path.to_string(),
        FileFacts {
            symlink: false,
            link_text: None,
            status: Some(FileStatus { kind: FileKind::Other(kind), mode: kind | 0o644 }),
            canonical: Some(path.to_string()),
            entries: Err("Not a directory".to_string()),
            broken: None,
            content: Err("not a regular file".to_string()),
        },
    );
}

fn leaf(plan: &Plan, rel: &str) -> Option<(String, i32)> {
    match plan.get(rel) {
        Some(PlanEntry::Leaf { target, priority }) => Some((target.clone(), *priority)),
        _ => None,
    }
}

fn directory(plan: &Plan, rel: &str) -> Option<i32> {
    match plan.get(rel) {
        Some(PlanEntry::Directory { priority }) => Some(*priority),
        _ => None,
    }
}

fn linked(plan: &Plan, rel: &str, target: &str, priority: i32) -> bool {
    leaf(plan, rel) == Some((target.to_string(), priority))
}

/// Two packages with one file each at `/bin/x`.
fn two_packages(a: &str, b: &str) -> World {
    let mut world = World::new();
    dir(&mut world, "/s/a", &["bin"]);
    dir(&mut world, "/s/a/bin", &["x"]);
    file(&mut world, "/s/a/bin/x", a);
    dir(&mut world, "/s/b", &["bin"]);
    dir(&mut world, "/s/b/bin", &["x"]);
    file(&mut world, "/s/b/bin/x", b);
    world
}

#[test]
fn new_plan_holds_the_root() {
    let env = BuildEnv::new(config(&["/"]));
    assert_eq!(directory(&env.symlinks, ""), Some(0));
    assert_eq!(env.symlinks.len(), 1);
    assert!(env.postponed.is_empty());
    assert!(env.warnings.is_empty());
    assert!(env.done.is_empty());
}

#[test]
fn new_plan_holds_each_level_of_the_paths_to_link() {
    let env = BuildEnv::new(config(&["/share/doc", "/bin", "//lib//x/"]));
    for rel in ["", "/share", "/share/doc", "/bin", "/lib", "/lib/x"] {
        assert_eq!(directory(&env.symlinks, rel), Some(0), "at {:?}", rel);
    }
    assert_eq!(env.symlinks.len(), 6);
    assert!(env.symlinks.get("/share/doc/").is_none());
    assert!(env.symlinks.get("share").is_none());
}

#[test]
fn a_file_is_linked_and_its_directories_are_marked() {
    let world = two_packages("a", "b");
    let mut env = BuildEnv::new(config(&["/"]));
    env.add_pkg(&world, "/s/a", 7).unwrap();
    assert!(linked(&env.symlinks, "/bin/x", "/s/a/bin/x", 7));
    assert_eq!(directory(&env.symlinks, "/bin"), Some(7));
    assert_eq!(directory(&env.symlinks, ""), Some(7));
    assert!(env.done.contains_key("/s/a"));
    assert!(env.warnings.is_empty());
}

#[test]
fn lower_priority_number_wins_in_either_order() {
    let world = two_packages("a", "b");
    let mut cfg = config(&["/"]);
    cfg.ignore_collisions = true;

    let mut first = BuildEnv::new(config(&["/"]));
    first.add_pkg(&world, "/s/a", 10).unwrap();
    first.add_pkg(&world, "/s/b", 5).unwrap();
    assert!(linked(&first.symlinks, "/bin/x", "/s/b/bin/x", 5));

    let mut second = BuildEnv::new(cfg);
    second.add_pkg(&world, "/s/b", 5).unwrap();
    second.add_pkg(&world, "/s/a", 10).unwrap();
    assert!(linked(&second.symlinks, "/bin/x", "/s/b/bin/x", 5));
    assert!(second.warnings.is_empty());
}

#[test]
fn a_merged_directory_carries_the_priority_of_who_came_last() {
    let world = two_packages("a", "b");
    let mut env = BuildEnv::new(config(&["/"]));
    env.add_pkg(&world, "/s/b", 5).unwrap();
    assert_eq!(directory(&env.symlinks, "/bin"), Some(5));
    env.add_pkg(&world, "/s/a", 10).unwrap();
    assert_eq!(directory(&env.symlinks, "/bin"), Some(10));
    assert_eq!(directory(&env.symlinks, ""), Some(10));
    assert!(linked(&env.symlinks, "/bin/x", "/s/b/bin/x", 5));
}

#[test]
fn equal_files_are_accepted_and_the_first_stays() {
    let world = two_packages("same", "same");
    let mut env = BuildEnv::new(config(&["/"]));
    env.add_pkg(&world, "/s/a", 0).unwrap();
    env.add_pkg(&world, "/s/b", 0).unwrap();
    assert!(linked(&env.symlinks, "/bin/x", "/s/a/bin/x", 0));
    assert!(env.warnings.is_empty());
}

#[test]
fn equal_files_collide_where_contents_are_not_checked() {
    let world = two_packages("same", "same");
    let mut cfg = config(&["/"]);
    cfg.check_collision_contents = false;
    let mut env = BuildEnv::new(cfg);
    env.add_pkg(&world, "/s/a", 0).unwrap();
    let result = env.add_pkg(&world, "/s/b", 0);
    assert!(matches!(result, Err(Error::Collision { .. })));
}

#[test]
fn differing_files_collide() {
    let world = two_packages("one", "two");
    let mut env = BuildEnv::new(config(&["/"]));
    env.add_pkg(&world, "/s/a", 0).unwrap();
    match env.add_pkg(&world, "/s/b", 0) {
        Err(Error::Collision { old, new }) => {
            assert_eq!(old, "`/s/a/bin/x'");
            assert_eq!(new, "`/s/b/bin/x'");
        },
        other => panic!("no collision: {:?}", other),
    }
}

#[test]
fn an_ignored_collision_keeps_the_first_and_warns() {
    let world = two_packages("one", "two");
    let mut cfg = config(&["/"]);
    cfg.ignore_collisions = true;
    let mut env = BuildEnv::new(cfg);
    env.add_pkg(&world, "/s/a", 0).unwrap();
    env.add_pkg(&world, "/s/b", 0).unwrap();
    assert!(linked(&env.symlinks, "/bin/x", "/s/a/bin/x", 0));
    assert_eq!(env.warnings.len(), 1);
    assert_eq!(
        env.warnings[0].message(),
        "warning: collision between `/s/b/bin/x' and `/s/a/bin/x'"
    );
}

#[test]
fn differing_permissions_are_a_collision_and_a_warning() {
    let mut world = two_packages("same", "same");
    file_with_mode(&mut world, "/s/a/bin/x", "same", 0o755);
    let mut env = BuildEnv::new(config(&["/"]));
    env.add_pkg(&world, "/s/a", 0).unwrap();
    let result = env.add_pkg(&world, "/s/b", 0);
    assert!(matches!(result, Err(Error::Collision { .. })));
    assert_eq!(env.warnings.len(), 1);
    assert_eq!(
        env.warnings[0].message(),
        "warning: different permissions in `/s/a/bin/x' and `/s/b/bin/x': 0755 <-> 0644"
    );
}

#[test]
fn check_collision_compares_bytes_of_regular_files() {
    let world = two_packages("one", "two");
    let mut env = BuildEnv::new(config(&["/"]));
    assert_eq!(env.check_collision(&world, "/s/a/bin/x", "/s/b/bin/x").unwrap(), false);
    assert_eq!(env.check_collision(&world, "/s/a/bin/x", "/s/a/bin/x").unwrap(), true);
    assert!(env.warnings.is_empty());
}

#[test]
fn check_collision_is_false_where_a_path_is_missing() {
    let world = two_packages("one", "two");
    let mut env = BuildEnv::new(config(&["/"]));
    assert_eq!(env.check_collision(&world, "/s/a/bin/x", "/s/none").unwrap(), false);
    assert_eq!(env.check_collision(&world, "/s/none", "/s/a/bin/x").unwrap(), false);
    assert_eq!(env.check_collision(&world, "", "").unwrap(), false);
}

#[test]
fn check_collision_looks_at_the_low_twelve_bits_of_the_mode() {
    let mut world = World::new();
    file_with_mode(&mut world, "/p", "x", 0o4755);
    file_with_mode(&mut world, "/q", "x", 0o0755);
    world.insert("/r".to_string(), FileFacts::regular("/r".to_string(), 0o4755, b"x".to_vec()));
    let mut env = BuildEnv::new(config(&["/"]));
    assert_eq!(env.check_collision(&world, "/p", "/q").unwrap(), false);
    assert_eq!(env.warnings.len(), 1);
    assert!(matches!(
        &env.warnings[0],
        Warning::DifferentPermissions { first, second, first_mode: 0o4755, second_mode: 0o755 }
            if first == "/p" && second == "/q"
    ));
    assert_eq!(env.check_collision(&world, "/p", "/r").unwrap(), true);
    assert_eq!(env.warnings.len(), 1);
}

#[test]
fn objects_that_are_no_regular_files_are_equivalent_by_kind_alone() {
    let mut world = World::new();
    special(&mut world, "/fifo1", 0o010000);
    special(&mut world, "/fifo2", 0o010000);
    special(&mut world, "/socket", 0o140000);
    file(&mut world, "/file", "x");
    let mut env = BuildEnv::new(config(&["/"]));
    assert_eq!(env.check_collision(&world, "/fifo1", "/fifo2").unwrap(), true);
    assert_eq!(env.check_collision(&world, "/fifo1", "/socket").unwrap(), false);
    assert_eq!(env.check_collision(&world, "/fifo1", "/file").unwrap(), false);
}

#[test]
fn an_unreadable_file_fails_the_comparison() {
    let mut world = two_packages("one", "two");
    world.insert(
        "/s/b/bin/x".to_string(),
        FileFacts {
            symlink: false,
            link_text: None,
            status: Some(FileStatus { kind: FileKind::File, mode: 0o100644 }),
            canonical: Some("/s/b/bin/x".to_string()),
            entries: Err("Not a directory".to_string()),
            broken: None,
            content: Err("Permission denied".to_string()),
        },
    );
    let mut env = BuildEnv::new(config(&["/"]));
    match env.check_collision(&world, "/s/a/bin/x", "/s/b/bin/x") {
        Err(e) => {
            assert!(matches!(&e, Error::Io { path, .. } if path == "/s/b/bin/x"));
            assert_eq!(e.message(), "Failed to read file (/s/b/bin/x): Permission denied");
        },
        other => panic!("no failure: {:?}", other),
    }
}

#[test]
fn a_directory_that_cannot_be_listed_fails_the_run() {
    let mut world = World::new();
    dir(&mut world, "/s/a", &["bin"]);
    world.insert(
        "/s/a/bin".to_string(),
        FileFacts {
            symlink: false,
            link_text: None,
            status: Some(FileStatus { kind: FileKind::Dir, mode: 0o40000 }),
            canonical: Some("/s/a/bin".to_string()),
            entries: Err("Permission denied".to_string()),
            broken: None,
            content: Err("Is a directory".to_string()),
        },
    );
    let mut env = BuildEnv::new(config(&["/"]));
    match env.add_pkg(&world, "/s/a", 0) {
        Err(e) => {
            assert_eq!(e.message(), "Failed to read directory (/s/a/bin): Permission denied")
        },
        other => panic!("no failure: {:?}", other),
    }
}

#[test]
fn the_same_object_is_no_collision() {
    let mut world = two_packages("lib", "lib");
    link_to_file(&mut world, "/s/b/bin/x", "/s/a/bin/x", "lib");
    let mut cfg = config(&["/"]);
    cfg.check_collision_contents = false;
    let mut env = BuildEnv::new(cfg);
    env.add_pkg(&world, "/s/a", 0).unwrap();
    env.add_pkg(&world, "/s/b", 0).unwrap();
    assert!(linked(&env.symlinks, "/bin/x", "/s/a/bin/x", 0));
    assert!(env.warnings.is_empty());
}

#[test]
fn a_direct_file_replaces_a_link_to_it() {
    let mut world = two_packages("lib", "lib");
    link_to_file(&mut world, "/s/b/bin/x", "/s/a/bin/x", "lib");
    let mut cfg = config(&["/"]);
    cfg.check_collision_contents = false;
    let mut env = BuildEnv::new(cfg);
    env.add_pkg(&world, "/s/b", 3).unwrap();
    assert!(linked(&env.symlinks, "/bin/x", "/s/b/bin/x", 3));
    env.add_pkg(&world, "/s/a", 8).unwrap();
    assert!(linked(&env.symlinks, "/bin/x", "/s/a/bin/x", 8));
}

#[test]
fn a_file_where_the_plan_holds_a_directory_collides() {
    let mut world = two_packages("a", "b");
    dir(&mut world, "/s/b", &["bin"]);
    file(&mut world, "/s/b/bin", "a file called bin");
    let mut env = BuildEnv::new(config(&["/"]));
    env.add_pkg(&world, "/s/a", 0).unwrap();
    match env.add_pkg(&world, "/s/b", 0) {
        Err(Error::Collision { old, new }) => {
            assert_eq!(old, "`'");
            assert_eq!(new, "`/s/b/bin'");
        },
        other => panic!("no collision: {:?}", other),
    }
}

#[test]
fn a_directory_where_the_plan_holds_a_link_collides_or_is_dropped() {
    let mut world = two_packages("a", "b");
    dir(&mut world, "/s/a", &["bin"]);
    file(&mut world, "/s/a/bin", "a file called bin");

    let mut tie = BuildEnv::new(config(&["/"]));
    tie.add_pkg(&world, "/s/a", 0).unwrap();
    assert!(matches!(tie.add_pkg(&world, "/s/b", 0), Err(Error::Collision { .. })));

    let mut outranking = BuildEnv::new(config(&["/"]));
    outranking.add_pkg(&world, "/s/a", 5).unwrap();
    assert!(matches!(outranking.add_pkg(&world, "/s/b", 1), Err(Error::Collision { .. })));

    let mut underranking = BuildEnv::new(config(&["/"]));
    underranking.add_pkg(&world, "/s/a", 1).unwrap();
    underranking.add_pkg(&world, "/s/b", 5).unwrap();
    assert!(linked(&underranking.symlinks, "/bin", "/s/a/bin", 1));
    assert!(underranking.symlinks.get("/bin/x").is_none());
}

#[test]
fn a_dangling_link_is_linked_with_a_warning() {
    let mut world = World::new();
    dir(&mut world, "/s/a", &["broken"]);
    world.insert("/s/a/broken".to_string(), FileFacts::dangling_link("/nowhere".to_string()));
    let mut cfg = config(&["/"]);
    cfg.extra_prefix = "/usr".to_string();
    let mut env = BuildEnv::new(cfg);
    env.add_pkg(&world, "/s/a", 0).unwrap();
    assert!(linked(&env.symlinks, "/broken", "/s/a/broken", 0));
    assert_eq!(env.warnings.len(), 1);
    assert_eq!(
        env.warnings[0].message(),
        "warning: creating dangling symlink `/out/usr/broken' -> `/s/a/broken' -> `/nowhere'"
    );
}

#[test]
fn a_collision_names_a_dangling_link() {
    let mut world = two_packages("a", "b");
    world.insert("/s/b/bin/x".to_string(), FileFacts::dangling_link("/nowhere".to_string()));
    let mut env = BuildEnv::new(config(&["/"]));
    env.add_pkg(&world, "/s/a", 0).unwrap();
    match env.add_pkg(&world, "/s/b", 0) {
        Err(e) => assert_eq!(
            e.message(),
            "collision between `/s/a/bin/x' and dangling symlink `/s/b/bin/x'"
        ),
        other => panic!("no collision: {:?}", other),
    }
}

#[test]
fn paths_that_are_not_wanted_are_passed_over() {
    let mut world = World::new();
    dir(&mut world, "/s/a", &["bin", "lib", "share"]);
    dir(&mut world, "/s/a/bin", &["app"]);
    file(&mut world, "/s/a/bin/app", "app");
    dir(&mut world, "/s/a/lib", &["libfoo.so"]);
    file(&mut world, "/s/a/lib/libfoo.so", "lib");
    dir(&mut world, "/s/a/share", &["doc", "man"]);
    dir(&mut world, "/s/a/share/doc", &["readme"]);
    file(&mut world, "/s/a/share/doc/readme", "read me");
    dir(&mut world, "/s/a/share/man", &["app.1"]);
    file(&mut world, "/s/a/share/man/app.1", "man");
    let mut env = BuildEnv::new(config(&["/bin", "/share/doc"]));
    env.add_pkg(&world, "/s/a", 0).unwrap();
    assert!(linked(&env.symlinks, "/bin/app", "/s/a/bin/app", 0));
    assert!(linked(&env.symlinks, "/share/doc/readme", "/s/a/share/doc/readme", 0));
    assert!(env.symlinks.get("/lib").is_none());
    assert!(env.symlinks.get("/lib/libfoo.so").is_none());
    assert!(env.symlinks.get("/share/man").is_none());
    assert_eq!(directory(&env.symlinks, "/share"), Some(0));
}

#[test]
fn dot_names_in_a_listing_are_passed_over() {
    let mut world = World::new();
    dir(&mut world, "/s/a", &[".", "..", "x"]);
    file(&mut world, "/s/a/x", "x");
    file(&mut world, "/s/a/.", "never looked at");
    let mut env = BuildEnv::new(config(&["/"]));
    env.add_pkg(&world, "/s/a", 0).unwrap();
    assert!(linked(&env.symlinks, "/x", "/s/a/x", 0));
    assert_eq!(env.symlinks.len(), 2);
}

#[test]
fn a_plain_file_among_the_store_paths_is_no_package() {
    let mut world = World::new();
    file(&mut world, "/s/single", "I am a file package");

    let mut strict = BuildEnv::new(config(&["/"]));
    match strict.add_pkg(&world, "/s/single", 0) {
        Err(e) => assert_eq!(
            e.message(),
            "The store path /s/single is a file and can't be merged into an environment using pkgs.buildEnv!"
        ),
        other => panic!("no failure: {:?}", other),
    }

    let mut cfg = config(&["/"]);
    cfg.ignore_single_file_outputs = true;
    let mut lenient = BuildEnv::new(cfg);
    lenient.add_pkg(&world, "/s/single", 0).unwrap();
    assert_eq!(lenient.symlinks.len(), 1);
    assert_eq!(directory(&lenient.symlinks, ""), Some(0));
    assert_eq!(lenient.warnings.len(), 1);
    assert_eq!(
        lenient.warnings[0].message(),
        "warning: The store path /s/single is a file and can't be merged into an environment using pkgs.buildEnv"
    );
}

#[test]
fn a_plain_file_elsewhere_is_a_collision_with_the_root() {
    let mut world = World::new();
    file(&mut world, "/elsewhere/single", "a file");
    let mut env = BuildEnv::new(config(&["/"]));
    assert!(matches!(
        env.add_pkg(&world, "/elsewhere/single", 0),
        Err(Error::Collision { .. })
    ));
}

#[test]
fn a_package_is_folded_in_once() {
    let world = two_packages("a", "b");
    let mut env = BuildEnv::new(config(&["/"]));
    env.add_pkg(&world, "/s/a", 3).unwrap();
    env.add_pkg(&world, "/s/a", 1).unwrap();
    assert!(linked(&env.symlinks, "/bin/x", "/s/a/bin/x", 3));
    assert_eq!(directory(&env.symlinks, "/bin"), Some(3));
}

#[test]
fn asked_for_packages_are_postponed_once_and_in_order() {
    let mut world = two_packages("a", "b");
    dir(&mut world, "/s/a", &["bin", "nix-support"]);
    dir(&mut world, "/s/a/nix-support", &["propagated-user-env-packages"]);
    file(
        &mut world,
        "/s/a/nix-support/propagated-user-env-packages",
        "/s/c  /s/b\n/s/a /s/c\t/s/d",
    );
    let mut env = BuildEnv::new(config(&["/"]));
    env.add_pkg(&world, "/s/a", 0).unwrap();
    assert_eq!(env.postponed, vec!["/s/c", "/s/b", "/s/d"]);
    assert!(env.symlinks.get("/nix-support").is_none());
}

#[test]
fn propagation_folds_each_package_once_from_priority_1000_on() {
    let mut world = two_packages("a", "b");
    dir(&mut world, "/s/a", &["bin", "nix-support"]);
    file(&mut world, "/s/a/nix-support/propagated-user-env-packages", "/s/c /s/d");
    dir(&mut world, "/s/c", &["c", "nix-support"]);
    file(&mut world, "/s/c/c", "c");
    file(&mut world, "/s/c/nix-support/propagated-user-env-packages", "/s/d /s/a /s/e");
    dir(&mut world, "/s/d", &["d"]);
    file(&mut world, "/s/d/d", "d");
    dir(&mut world, "/s/e", &["e"]);
    file(&mut world, "/s/e/e", "e");
    let mut env = BuildEnv::new(config(&["/"]));
    env.add_pkg(&world, "/s/a", 0).unwrap();
    env.propagate_all(&world).unwrap();
    assert!(env.postponed.is_empty());
    assert!(linked(&env.symlinks, "/bin/x", "/s/a/bin/x", 0));
    assert!(linked(&env.symlinks, "/c", "/s/c/c", 1000));
    assert!(linked(&env.symlinks, "/d", "/s/d/d", 1001));
    // `/s/d` waited twice: named by `/s/a`, and again by `/s/c` before its turn had come.
    // Its second turn changed nothing but took the priority 1002.
    assert!(linked(&env.symlinks, "/e", "/s/e/e", 1003));
    for root in ["/s/a", "/s/c", "/s/d", "/s/e"] {
        assert!(env.done.contains_key(root));
    }
    assert_eq!(env.done.len(), 4);
    assert!(!env.config.ignore_collisions);
}

#[test]
fn propagated_packages_never_fail_on_a_collision() {
    let mut world = two_packages("one", "two");
    dir(&mut world, "/s/a", &["bin", "nix-support"]);
    file(&mut world, "/s/a/nix-support/propagated-user-env-packages", "/s/b");
    let mut env = BuildEnv::new(config(&["/"]));
    env.add_pkg(&world, "/s/a", 1000).unwrap();
    env.propagate_all(&world).unwrap();
    assert!(linked(&env.symlinks, "/bin/x", "/s/a/bin/x", 1000));
    assert_eq!(env.warnings.len(), 1);
    assert!(matches!(&env.warnings[0], Warning::Collision { .. }));
}

#[test]
fn a_propagated_package_that_does_not_exist_is_warned_of() {
    let mut world = two_packages("a", "b");
    dir(&mut world, "/s/a", &["bin", "nix-support"]);
    file(&mut world, "/s/a/nix-support/propagated-user-env-packages", "/s/gone");
    let mut env = BuildEnv::new(config(&["/"]));
    env.add_pkg(&world, "/s/a", 0).unwrap();
    env.propagate_all(&world).unwrap();
    assert!(env.done.contains_key("/s/gone"));
    assert_eq!(directory(&env.symlinks, ""), Some(0));
    assert_eq!(env.warnings.len(), 1);
    assert_eq!(env.warnings[0].message(), "warning: collision between `/s/gone' and `'");
}

#[test]
fn a_file_of_propagated_packages_that_is_no_text_fails_the_run() {
    let mut world = two_packages("a", "b");
    world.insert(
        "/s/a/nix-support/propagated-user-env-packages".to_string(),
        FileFacts::regular("/p".to_string(), 0o100644, vec![0xff, 0xfe]),
    );
    let mut env = BuildEnv::new(config(&["/"]));
    match env.add_pkg(&world, "/s/a", 0) {
        Err(e) => assert_eq!(
            e.message(),
            "Failed to read propagated packages (/s/a/nix-support/propagated-user-env-packages): stream did not contain valid UTF-8"
        ),
        other => panic!("no failure: {:?}", other),
    }
}

#[test]
fn disjoint_packages_give_the_same_links_in_either_order() {
    let mut world = World::new();
    dir(&mut world, "/s/a", &["bin", "share"]);
    dir(&mut world, "/s/a/bin", &["a"]);
    file(&mut world, "/s/a/bin/a", "a");
    dir(&mut world, "/s/a/share", &["a.txt"]);
    file(&mut world, "/s/a/share/a.txt", "a");
    dir(&mut world, "/s/b", &["bin", "lib"]);
    dir(&mut world, "/s/b/bin", &["b"]);
    file(&mut world, "/s/b/bin/b", "b");
    dir(&mut world, "/s/b/lib", &["b.so"]);
    file(&mut world, "/s/b/lib/b.so", "b");

    let mut ab = BuildEnv::new(config(&["/"]));
    ab.add_pkg(&world, "/s/a", 1).unwrap();
    ab.add_pkg(&world, "/s/b", 2).unwrap();
    let mut ba = BuildEnv::new(config(&["/"]));
    ba.add_pkg(&world, "/s/b", 2).unwrap();
    ba.add_pkg(&world, "/s/a", 1).unwrap();

    let links = [
        ("/bin/a", "/s/a/bin/a", 1),
        ("/share/a.txt", "/s/a/share/a.txt", 1),
        ("/bin/b", "/s/b/bin/b", 2),
        ("/lib/b.so", "/s/b/lib/b.so", 2),
    ];
    for (rel, target, priority) in links {
        assert!(linked(&ab.symlinks, rel, target, priority));
        assert!(linked(&ba.symlinks, rel, target, priority));
    }
    assert_eq!(ab.symlinks.len(), 8);
    assert_eq!(ba.symlinks.len(), 8);
    assert_eq!(directory(&ab.symlinks, "/bin"), Some(2));
    assert_eq!(directory(&ba.symlinks, "/bin"), Some(1));
}

#[test]
fn find_files_in_dir_folds_the_entries_below_a_path() {
    let world = two_packages("a", "b");
    let mut env = BuildEnv::new(config(&["/"]));
    env.find_files_in_dir(&world, "/opt", "/s/a", 4).unwrap();
    assert!(linked(&env.symlinks, "/opt/bin/x", "/s/a/bin/x", 4));
    assert_eq!(directory(&env.symlinks, "/opt/bin"), Some(4));
    assert!(env.symlinks.get("/opt").is_none());
    assert!(env.done.is_empty());
}

#[test]
fn find_files_folds_one_candidate() {
    let world = two_packages("a", "b");
    let mut env = BuildEnv::new(config(&["/"]));
    env.find_files(&world, "/y", "/s/a/bin/x", "y", 2).unwrap();
    assert!(linked(&env.symlinks, "/y", "/s/a/bin/x", 2));
    env.find_files(&world, "/var/log", "/s/a/bin/x", "log", 2).unwrap();
    assert!(env.symlinks.get("/var/log").is_none());
}

#[test]
fn a_world_answers_for_what_was_recorded_last() {
    let mut world = World::new();
    assert_eq!(world.len(), 0);
    assert!(!world.get("/a").resolves());
    assert!(world.lookup("/a").is_none());
    file(&mut world, "/a", "one");
    dir(&mut world, "/a", &["x"]);
    assert_eq!(world.len(), 1);
    assert!(world.get("/a").is_dir());
    assert!(!world.get("/a").is_file());
    assert!(!world.get("/a").dangling());
    assert!(world.lookup("/a").is_some());
    let gone = FileFacts::missing();
    assert!(!gone.resolves() && !gone.symlink && gone.canonical.is_none());
}

#[test]
fn a_collision_leaves_the_plan_as_it_was() {
    let world = two_packages("one", "two");
    let mut env = BuildEnv::new(config(&["/"]));
    env.add_pkg(&world, "/s/a", 0).unwrap();
    let entries = env.symlinks.len();
    assert!(env.find_files(&world, "/bin/x", "/s/b/bin/x", "x", 0).is_err());
    assert!(linked(&env.symlinks, "/bin/x", "/s/a/bin/x", 0));
    assert_eq!(env.symlinks.len(), entries);
    assert_eq!(directory(&env.symlinks, "/bin"), Some(0));
    assert!(env.warnings.is_empty());
    assert!(env.postponed.is_empty());
    assert_eq!(env.done.len(), 1);
}

#[test]
fn a_file_against_a_directory_leaves_the_directory() {
    let mut world = two_packages("a", "b");
    file(&mut world, "/s/b/bin", "a file called bin");
    let mut env = BuildEnv::new(config(&["/"]));
    env.add_pkg(&world, "/s/a", 3).unwrap();
    assert!(env.find_files(&world, "/bin", "/s/b/bin", "bin", 1).is_err());
    assert_eq!(directory(&env.symlinks, "/bin"), Some(3));
    assert!(linked(&env.symlinks, "/bin/x", "/s/a/bin/x", 3));
}

#[test]
fn a_package_that_fails_is_marked_and_leaves_what_was_folded_in() {
    let mut world = two_packages("one", "two");
    dir(&mut world, "/s/b", &["etc", "bin"]);
    dir(&mut world, "/s/b/etc", &["conf"]);
    file(&mut world, "/s/b/etc/conf", "conf");
    let mut env = BuildEnv::new(config(&["/"]));
    env.add_pkg(&world, "/s/a", 0).unwrap();
    assert!(env.add_pkg(&world, "/s/b", 0).is_err());
    assert!(env.done.contains_key("/s/a"));
    assert!(env.done.contains_key("/s/b"));
    assert_eq!(env.done.len(), 2);
    assert!(linked(&env.symlinks, "/bin/x", "/s/a/bin/x", 0));
    assert!(linked(&env.symlinks, "/etc/conf", "/s/b/etc/conf", 0));
    assert_eq!(directory(&env.symlinks, "/etc"), Some(0));
    assert!(env.postponed.is_empty());
}

#[test]
fn a_plain_file_package_that_fails_changes_only_the_roots_folded_in() {
    let mut world = World::new();
    file(&mut world, "/s/single", "I am a file package");
    let mut env = BuildEnv::new(config(&["/"]));
    assert!(env.add_pkg(&world, "/s/single", 0).is_err());
    assert_eq!(env.symlinks.len(), 1);
    assert_eq!(directory(&env.symlinks, ""), Some(0));
    assert!(env.postponed.is_empty());
    assert!(env.warnings.is_empty());
    assert!(env.done.contains_key("/s/single"));
}

#[test]
fn a_failed_round_of_propagation_gives_the_configuration_back() {
    let mut world = two_packages("a", "b");
    dir(&mut world, "/s/a", &["bin", "nix-support"]);
    file(&mut world, "/s/a/nix-support/propagated-user-env-packages", "/s/single");
    file(&mut world, "/s/single", "I am a file package");
    let mut env = BuildEnv::new(config(&["/"]));
    env.add_pkg(&world, "/s/a", 0).unwrap();
    assert!(matches!(env.propagate_all(&world), Err(Error::StorePath { .. })));
    assert!(!env.config.ignore_collisions);
    assert!(env.postponed.is_empty());
    assert!(env.done.contains_key("/s/a") && env.done.contains_key("/s/single"));
    assert!(linked(&env.symlinks, "/bin/x", "/s/a/bin/x", 0));
}

#[test]
fn a_listing_that_breaks_off_fails_after_what_was_listed() {
    let mut world = World::new();
    world.insert(
        "/s/a".to_string(),
        FileFacts {
            symlink: false,
            link_text: None,
            status: Some(FileStatus { kind: FileKind::Dir, mode: 0o40755 }),
            canonical: Some("/s/a".to_string()),
            entries: Ok(vec!["x".to_string()]),
            broken: Some("Input/output error".to_string()),
            content: Err("Is a directory".to_string()),
        },
    );
    file(&mut world, "/s/a/x", "x");
    let mut env = BuildEnv::new(config(&["/"]));
    match env.add_pkg(&world, "/s/a", 0) {
        Err(e) => assert_eq!(
            e.message(),
            "Failed to read directory entry (/s/a): Input/output error"
        ),
        other => panic!("no failure: {:?}", other),
    }
    assert!(linked(&env.symlinks, "/x", "/s/a/x", 0));
    assert_eq!(directory(&env.symlinks, ""), Some(0));
}

#[test]
fn a_package_asked_for_twice_is_folded_in_once_at_one_priority() {
    let mut world = World::new();
    dir(&mut world, "/s/a", &["a", "nix-support"]);
    file(&mut world, "/s/a/a", "a");
    file(&mut world, "/s/a/nix-support/propagated-user-env-packages", "/s/b /s/c");
    dir(&mut world, "/s/b", &["b", "nix-support"]);
    file(&mut world, "/s/b/b", "b");
    file(&mut world, "/s/b/nix-support/propagated-user-env-packages", "/s/d");
    dir(&mut world, "/s/c", &["c", "nix-support"]);
    file(&mut world, "/s/c/c", "c");
    file(&mut world, "/s/c/nix-support/propagated-user-env-packages", "/s/d");
    dir(&mut world, "/s/d", &["d1", "d2"]);
    file(&mut world, "/s/d/d1", "d1");
    file(&mut world, "/s/d/d2", "d2");
    let mut env = BuildEnv::new(config(&["/"]));
    env.add_pkg(&world, "/s/a", 0).unwrap();
    env.propagate_all(&world).unwrap();
    assert!(linked(&env.symlinks, "/a", "/s/a/a", 0));
    assert!(linked(&env.symlinks, "/b", "/s/b/b", 1000));
    assert!(linked(&env.symlinks, "/c", "/s/c/c", 1001));
    assert!(linked(&env.symlinks, "/d1", "/s/d/d1", 1002));
    assert!(linked(&env.symlinks, "/d2", "/s/d/d2", 1002));
    assert_eq!(env.done.len(), 4);
    assert!(env.warnings.is_empty());
}
