use memls::{DavLock, MemLs, WebPath};

fn wp(s: &str) -> WebPath {
    WebPath::from_bytes(s.as_bytes())
}

fn acquire(ls: &mut MemLs, path: &str, shared: bool, deep: bool) -> Result<DavLock, DavLock> {
    ls.lock(&wp(path), None, None, shared, deep)
}

fn tokens(v: &[&DavLock]) -> Vec<String> {
    v.iter().map(|l| l.token.clone()).collect()
}

#[test]
fn scenario_deep_exclusive_then_release() {
    let mut ls = MemLs::new();
    let t1 = acquire(&mut ls, "/a/b", false, true).unwrap();
    let c = acquire(&mut ls, "/a/b/c", false, false).unwrap_err();
    assert_eq!(c.token, t1.token);
    assert!(ls.check(&wp("/a/b/c"), &tokens(&[&t1])).is_ok());
    assert!(ls.unlock(&wp("/a/b"), &t1.token).is_ok());
    assert!(ls.check(&wp("/a/b/c"), &Vec::new()).is_ok());
}

#[test]
fn exclusive_lock_blocks_path_and_deep_descendants() {
    let mut ls = MemLs::new();
    let t = acquire(&mut ls, "/x/y", false, true).unwrap();
    for p in ["/x/y", "/x/y/", "/x/y/z", "/x/y/z/w"] {
        for shared in [false, true] {
            let c = acquire(&mut ls, p, shared, false).unwrap_err();
            assert_eq!(c.token, t.token);
        }
    }
    assert!(acquire(&mut ls, "/x/other", false, false).is_ok());
}

#[test]
fn exclusive_flat_lock_blocks_only_its_path() {
    let mut ls = MemLs::new();
    let t = acquire(&mut ls, "/x", false, false).unwrap();
    assert_eq!(acquire(&mut ls, "/x", true, false).unwrap_err().token, t.token);
    assert!(acquire(&mut ls, "/x/y", false, false).is_ok());
}

#[test]
fn two_shared_locks_then_exclusive_refused() {
    let mut ls = MemLs::new();
    let a = acquire(&mut ls, "/s", true, false).unwrap();
    let b = acquire(&mut ls, "/s", true, false).unwrap();
    assert_ne!(a.token, b.token);
    let c = acquire(&mut ls, "/s", false, false).unwrap_err();
    assert_eq!(c.token, a.token);
    assert_eq!(ls.discover(&wp("/s")).len(), 2);
}

#[test]
fn deep_shared_lock_blocks_exclusive_below_but_not_shared() {
    let mut ls = MemLs::new();
    let t = acquire(&mut ls, "/d", true, true).unwrap();
    assert_eq!(acquire(&mut ls, "/d/e", false, false).unwrap_err().token, t.token);
    assert!(acquire(&mut ls, "/d/e", true, false).is_ok());
}

#[test]
fn deep_request_blocked_by_lock_below() {
    let mut ls = MemLs::new();
    let below = acquire(&mut ls, "/p/q/r", false, false).unwrap();
    assert_eq!(acquire(&mut ls, "/p", true, true).unwrap_err().token, below.token);
    assert!(acquire(&mut ls, "/p", true, false).is_ok());
}

#[test]
fn deep_shared_request_tolerates_shared_below() {
    let mut ls = MemLs::new();
    acquire(&mut ls, "/p/q", true, false).unwrap();
    assert!(acquire(&mut ls, "/p", true, true).is_ok());
    let mut ls2 = MemLs::new();
    let s = acquire(&mut ls2, "/p/q", true, false).unwrap();
    assert_eq!(acquire(&mut ls2, "/p", false, true).unwrap_err().token, s.token);
}

#[test]
fn release_then_acquire_again() {
    let mut ls = MemLs::new();
    let t = acquire(&mut ls, "/r/s", false, true).unwrap();
    assert!(ls.unlock(&wp("/r/s"), &t.token).is_ok());
    assert!(ls.discover(&wp("/r/s")).is_empty());
    let t2 = acquire(&mut ls, "/r/s", false, true).unwrap();
    assert_ne!(t.token, t2.token);
}

#[test]
fn release_keeps_ancestors_locks() {
    let mut ls = MemLs::new();
    let up = acquire(&mut ls, "/r", true, false).unwrap();
    let t = acquire(&mut ls, "/r/s", false, false).unwrap();
    assert_eq!(ls.discover(&wp("/r/s")).len(), 2);
    assert!(ls.unlock(&wp("/r/s"), &t.token).is_ok());
    let found = ls.discover(&wp("/r/s"));
    assert_eq!(found.len(), 1);
    assert_eq!(found[0].token, up.token);
}

#[test]
fn release_unknown_token_not_found() {
    let mut ls = MemLs::new();
    acquire(&mut ls, "/u", false, false).unwrap();
    assert_eq!(ls.unlock(&wp("/u"), &"urn:uuid:none".to_string()), Err(()));
    assert_eq!(ls.refresh(&wp("/u"), &"urn:uuid:none".to_string(), Some(5)).unwrap_err(), ());
}

#[test]
fn release_searches_only_the_given_path() {
    let mut ls = MemLs::new();
    let t = acquire(&mut ls, "/a/b", false, false).unwrap();
    assert!(ls.unlock(&wp("/a"), &t.token).is_err());
    assert!(ls.unlock(&wp("/a/b/c"), &t.token).is_ok());
}

#[test]
fn root_lock_is_released_and_refreshed() {
    let mut ls = MemLs::new();
    let t = acquire(&mut ls, "/", false, false).unwrap();
    let r = ls.refresh(&wp("/"), &t.token, Some(30)).unwrap();
    assert_eq!(r.token, t.token);
    assert_eq!(r.timeout, Some(30));
    assert!(ls.unlock(&wp("/"), &t.token).is_ok());
    assert!(ls.discover(&wp("/")).is_empty());
    assert!(acquire(&mut ls, "/", false, false).is_ok());
}

#[test]
fn root_lock_found_from_deeper_path() {
    let mut ls = MemLs::new();
    let t = acquire(&mut ls, "/", true, false).unwrap();
    assert!(ls.unlock(&wp("/a/b"), &t.token).is_ok());
    assert!(ls.discover(&wp("/")).is_empty());
}

#[test]
fn live_token_is_refused() {
    let mut ls = MemLs::new();
    let a = ls.lock_with(&wp("/a"), None, None, true, false, "tok".to_string(), 1).unwrap();
    let c = ls.lock_with(&wp("/b"), None, None, true, false, "tok".to_string(), 1).unwrap_err();
    assert_eq!(c.token, a.token);
    assert_eq!(c.path.as_bytes(), a.path.as_bytes());
    assert!(ls.discover(&wp("/b")).is_empty());
    assert!(ls.unlock(&wp("/a"), &"tok".to_string()).is_ok());
    assert!(ls.lock_with(&wp("/b"), None, None, true, false, "tok".to_string(), 1).is_ok());
}

#[test]
fn refresh_changes_only_timeout() {
    let mut ls = MemLs::new();
    let owner = Some(b"<D:href>me</D:href>".to_vec());
    let t = ls.lock(&wp("/f"), owner.clone(), None, true, true).unwrap();
    assert_eq!(t.timeout_at, None);
    let r = ls.refresh(&wp("/f"), &t.token, Some(60)).unwrap();
    assert_eq!(r.token, t.token);
    assert_eq!(r.shared, t.shared);
    assert_eq!(r.deep, t.deep);
    assert_eq!(r.owner, owner);
    assert_eq!(r.path.as_bytes(), t.path.as_bytes());
    assert_eq!(r.timeout, Some(60));
    assert!(r.timeout_at.is_some());
    assert!(ls.unlock(&wp("/f"), &t.token).is_ok());
}

#[test]
fn refresh_with_fixed_clock() {
    let mut ls = MemLs::new();
    let t = ls.lock_with(&wp("/g"), None, Some(10), false, false, "tok-1".to_string(), 1000).unwrap();
    assert_eq!(t.timeout_at, Some(1010));
    let r = ls.refresh_with(&wp("/g"), &"tok-1".to_string(), Some(30), 2000).unwrap();
    assert_eq!(r.timeout_at, Some(2030));
    let r2 = ls.refresh_with(&wp("/g"), &"tok-1".to_string(), None, 3000).unwrap();
    assert_eq!(r2.timeout_at, None);
    let sat = ls.lock_with(&wp("/h"), None, Some(u64::MAX), false, false, "tok-2".to_string(), 5).unwrap();
    assert_eq!(sat.timeout_at, Some(u64::MAX));
}

#[test]
fn cascade_delete_clears_subtree() {
    let mut ls = MemLs::new();
    acquire(&mut ls, "/c", true, false).unwrap();
    acquire(&mut ls, "/c/d", false, false).unwrap();
    acquire(&mut ls, "/c/d/e", false, true).unwrap();
    let keep = acquire(&mut ls, "/other", false, false).unwrap();
    assert_eq!(ls.delete(&wp("/c")), Ok(()));
    assert!(ls.discover(&wp("/c/d/e")).is_empty());
    assert!(acquire(&mut ls, "/c/d/e", false, true).is_ok());
    assert!(acquire(&mut ls, "/c", false, false).is_ok());
    assert_eq!(ls.discover(&wp("/other"))[0].token, keep.token);
}

#[test]
fn cascade_delete_of_missing_path_is_ok() {
    let mut ls = MemLs::new();
    let t = acquire(&mut ls, "/m", false, false).unwrap();
    assert_eq!(ls.delete(&wp("/nothing/here")), Ok(()));
    assert_eq!(ls.discover(&wp("/m"))[0].token, t.token);
}

#[test]
fn check_shared_needs_any_token_on_path() {
    let mut ls = MemLs::new();
    let s = acquire(&mut ls, "/k", true, true).unwrap();
    let other = acquire(&mut ls, "/k/l", true, false).unwrap();
    assert_eq!(ls.check(&wp("/k/l"), &Vec::new()).unwrap_err().token, s.token);
    assert!(ls.check(&wp("/k/l"), &tokens(&[&other])).is_ok());
    assert!(ls.check(&wp("/k/l"), &tokens(&[&s])).is_ok());
}

#[test]
fn check_exclusive_needs_its_own_token() {
    let mut ls = MemLs::new();
    let s = acquire(&mut ls, "/k", true, true).unwrap();
    let x = acquire(&mut ls, "/k/l", false, false);
    assert_eq!(x.unwrap_err().token, s.token);
    let mut ls2 = MemLs::new();
    let e = acquire(&mut ls2, "/k", false, true).unwrap();
    let wrong = vec!["urn:uuid:other".to_string()];
    assert_eq!(ls2.check(&wp("/k/l/m"), &wrong).unwrap_err().token, e.token);
    assert!(ls2.check(&wp("/k/l/m"), &tokens(&[&e])).is_ok());
}

#[test]
fn discover_lists_root_to_target() {
    let mut ls = MemLs::new();
    let a = acquire(&mut ls, "/", true, false).unwrap();
    let b = acquire(&mut ls, "/a", true, false).unwrap();
    let c = acquire(&mut ls, "/a/b", true, false).unwrap();
    acquire(&mut ls, "/a/b/c", true, false).unwrap();
    let found = ls.discover(&wp("//a//b/"));
    let toks: Vec<String> = found.iter().map(|l| l.token.clone()).collect();
    assert_eq!(toks, vec![a.token, b.token, c.token]);
    assert!(MemLs::new().discover(&wp("/a")).is_empty());
}

#[test]
fn token_is_a_uuid_urn() {
    let mut ls = MemLs::new();
    let t = acquire(&mut ls, "/t", true, false).unwrap();
    let u = acquire(&mut ls, "/t", true, false).unwrap();
    assert_eq!(t.token.len(), 45);
    assert!(t.token.starts_with("urn:uuid:"));
    assert_ne!(t.token, u.token);
}

#[test]
fn lock_records_request() {
    let mut ls = MemLs::new();
    let t = ls.lock(&wp("/w/x"), Some(b"o".to_vec()), Some(100), true, false).unwrap();
    assert_eq!(t.path.as_bytes(), &b"/w/x".to_vec());
    assert_eq!(t.owner, Some(b"o".to_vec()));
    assert_eq!(t.timeout, Some(100));
    assert!(t.timeout_at.unwrap() > 1_600_000_000 + 100);
    assert!(t.shared);
    assert!(!t.deep);
}

#[test]
fn segments_drop_empty_components() {
    let s = memls::split_segments(&b"//a///bc/".to_vec());
    assert_eq!(s, vec![b"a".to_vec(), b"bc".to_vec()]);
    assert!(memls::split_segments(&b"/".to_vec()).is_empty());
    assert!(memls::split_segments(&Vec::new()).is_empty());
}
