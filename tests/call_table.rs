use alure_module::call_table::{CallTable, CallTableError, LibSite};
use alure_module::libid::LibId;

fn lib(b: u8) -> LibId {
    let mut a = [0u8; 32];
    a[0] = b;
    LibId(a)
}

#[test]
fn scenario_indices_and_routine_order() {
    let lib_a = lib(1);
    let lib_b = lib(2);
    let mut t = CallTable::new();
    assert_eq!(t.find_or_insert(lib_a, "init"), Ok(0));
    assert_eq!(t.find_or_insert(lib_a, "run"), Ok(1));
    assert_eq!(t.find_or_insert(lib_a, "init"), Ok(0));
    assert_eq!(t.find_or_insert(lib_b, "init"), Ok(0));
    assert_eq!(t.routines(), vec!["init".to_string(), "run".to_string(), "init".to_string()]);
}

#[test]
fn libraries_ordered_by_identifier_not_insertion() {
    let mut t = CallTable::new();
    assert_eq!(t.find_or_insert(lib(9), "late"), Ok(0));
    assert_eq!(t.find_or_insert(lib(3), "early"), Ok(0));
    assert_eq!(t.find_or_insert(lib(5), "middle"), Ok(0));
    assert_eq!(
        t.routines(),
        vec!["early".to_string(), "middle".to_string(), "late".to_string()]
    );
    let refs = t.call_refs();
    assert_eq!(refs[0].0, lib(3));
    assert_eq!(refs[2].0, lib(9));
}

#[test]
fn index_stable_across_other_insertions() {
    let mut t = CallTable::new();
    assert_eq!(t.find_or_insert(lib(4), "foo"), Ok(0));
    for k in 0..20u8 {
        t.find_or_insert(lib(k), "other").unwrap();
        t.find_or_insert(lib(4), &format!("r{}", k)).unwrap();
        assert_eq!(t.find_or_insert(lib(4), "foo"), Ok(0));
    }
}

#[test]
fn no_duplicate_routine_names() {
    let mut t = CallTable::new();
    for name in ["a", "b", "a", "c", "b", "a"] {
        t.find_or_insert(lib(1), name).unwrap();
    }
    assert_eq!(t.len(), 3);
    assert_eq!(t.routines(), vec!["a".to_string(), "b".to_string(), "c".to_string()]);
}

#[test]
fn capacity_of_routines_enforced() {
    let mut t = CallTable::new();
    // 255 libraries with 257 routines each: 65535 entries.
    for l in (0..255u8).rev() {
        for r in 0..257u32 {
            t.find_or_insert(lib(l), &format!("r{}", r)).unwrap();
        }
    }
    assert_eq!(t.len(), 65535);
    let before = t.clone();
    assert_eq!(t.find_or_insert(lib(0), "extra"), Err(CallTableError::TooManyRoutines));
    assert_eq!(t.find_or_insert(lib(255), "extra"), Err(CallTableError::TooManyRoutines));
    assert_eq!(t, before);
    assert_eq!(t.len(), 65535);
    // Pairs already present are still found.
    assert_eq!(t.find_or_insert(lib(7), "r256"), Ok(256));
}

#[test]
fn capacity_of_libraries_enforced() {
    let mut t = CallTable::new();
    for l in 0..=255u8 {
        let mut a = [0u8; 32];
        a[31] = l;
        assert_eq!(t.find_or_insert(LibId(a), "f"), Ok(0));
    }
    assert_eq!(t.lib_count(), 256);
    let mut a = [0u8; 32];
    a[0] = 1;
    let before = t.clone();
    assert_eq!(t.find_or_insert(LibId(a), "f"), Err(CallTableError::TooManyLibs));
    assert_eq!(t, before);
    let mut b = [0u8; 32];
    b[31] = 3;
    assert_eq!(t.find_or_insert(LibId(b), "g"), Ok(1));
}

#[test]
fn recording_call_sites() {
    let mut t = CallTable::new();
    t.find_or_insert(lib(1), "f").unwrap();
    assert_eq!(t.get_mut(LibSite { lib: lib(1), pos: 0 }, 30), Ok(()));
    assert_eq!(t.get_mut(LibSite { lib: lib(1), pos: 0 }, 10), Ok(()));
    assert_eq!(t.get_mut(LibSite { lib: lib(1), pos: 0 }, 30), Ok(()));
    assert_eq!(t.get_mut(LibSite { lib: lib(1), pos: 0 }, 20), Ok(()));
    let refs = t.call_refs();
    assert_eq!(refs, vec![(lib(1), "f".to_string(), vec![10u16, 20, 30])]);
}

#[test]
fn call_site_errors() {
    let mut t = CallTable::new();
    t.find_or_insert(lib(1), "f").unwrap();
    assert_eq!(
        t.get_mut(LibSite { lib: lib(2), pos: 0 }, 1),
        Err(CallTableError::LibTableNotFound(lib(2)))
    );
    assert_eq!(
        t.get_mut(LibSite { lib: lib(1), pos: 1 }, 1),
        Err(CallTableError::RoutineNotFound(lib(1), 1))
    );
}

#[test]
fn lib_id_comparison() {
    assert!(lib(1).compare(&lib(2)) < 0);
    assert!(lib(2).compare(&lib(1)) > 0);
    assert_eq!(lib(7).compare(&lib(7)), 0);
    let mut a = [0u8; 32];
    a[31] = 1;
    assert!(lib(0).compare(&LibId(a)) < 0);
    assert!(lib(0).same(&lib(0)));
    assert!(!lib(0).same(&LibId(a)));
}

#[test]
fn resolving_call_sites() {
    let lib_a = lib(1);
    let mut t = CallTable::new();
    t.find_or_insert(lib_a, "init").unwrap();
    t.find_or_insert(lib_a, "run").unwrap();
    let c = t.get(LibSite { lib: lib_a, pos: 1 }).unwrap();
    assert_eq!(c.routine, "run");
    assert!(c.sites.is_empty());
    assert_eq!(
        t.get(LibSite { lib: lib_a, pos: 2 }).map(|c| c.routine.clone()),
        Err(CallTableError::RoutineNotFound(lib_a, 2))
    );
    assert_eq!(
        t.get(LibSite { lib: lib(9), pos: 0 }).map(|c| c.routine.clone()),
        Err(CallTableError::LibTableNotFound(lib(9)))
    );
    assert_eq!(t.get_mut(LibSite { lib: lib_a, pos: 1 }, 5), Ok(()));
    assert_eq!(t.get(LibSite { lib: lib_a, pos: 1 }).unwrap().sites, vec![5]);
    assert!(t.get(LibSite { lib: lib_a, pos: 0 }).unwrap().sites.is_empty());
}
