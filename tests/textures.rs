use triangles::error::RenderError;
use triangles::texman::Texman;

#[test]
fn resolve_follows_latest_upload_or_remove() {
    let mut t: Texman<&str> = Texman::new();
    assert_eq!(t.resolve(7), Err(RenderError::UnknownHandle));
    t.upload("a", 7);
    assert_eq!(t.resolve(7), Ok(0));
    assert_eq!(t.remove(7), Ok(()));
    assert_eq!(t.resolve(7), Err(RenderError::UnknownHandle));
    t.upload("b", 7);
    assert_eq!(t.resolve(7), Ok(1));
    t.upload("c", 9);
    assert_eq!(t.resolve(9), Ok(2));
    assert_eq!(t.resolve(7), Ok(1));
}

#[test]
fn remove_of_unknown_id_fails_and_changes_nothing() {
    let mut t: Texman<u8> = Texman::new();
    t.upload(1, 3);
    let _ = t.compact();
    assert!(!t.get_dirty());
    assert_eq!(t.remove(4), Err(RenderError::UnknownHandle));
    assert!(!t.get_dirty());
    assert_eq!(t.resolve(3), Ok(0));
}

#[test]
fn reupload_queues_old_slot() {
    let mut t: Texman<&str> = Texman::new();
    t.upload("old", 5);
    t.upload("new", 5);
    assert_eq!(t.slot_count(), 2);
    assert_eq!(t.resolve(5), Ok(1));
    let remap = t.compact();
    assert_eq!(remap, vec![None, Some(0)]);
    assert_eq!(t.payloads(), &vec!["new"]);
    assert_eq!(t.resolve(5), Ok(0));
}

#[test]
fn compact_renumbers_densely() {
    let mut t: Texman<&str> = Texman::new();
    t.upload("a", 10);
    t.upload("b", 11);
    t.upload("c", 12);
    t.upload("d", 13);
    assert!(t.get_dirty());
    t.remove(11).unwrap();
    t.remove(10).unwrap();
    let remap = t.compact();
    assert_eq!(remap, vec![None, None, Some(0), Some(1)]);
    assert_eq!(t.slot_count(), 2);
    assert_eq!(t.payloads(), &vec!["c", "d"]);
    assert_eq!(t.resolve(12), Ok(0));
    assert_eq!(t.resolve(13), Ok(1));
    assert_eq!(t.resolve(10), Err(RenderError::UnknownHandle));
    assert!(!t.get_dirty());
}

#[test]
fn compact_without_removals_is_identity() {
    let mut t: Texman<u8> = Texman::new();
    t.upload(1, 1);
    t.upload(2, 2);
    let first = t.compact();
    assert_eq!(first, vec![Some(0), Some(1)]);
    let second = t.compact();
    assert_eq!(second, vec![Some(0), Some(1)]);
    assert!(!t.get_dirty());
}

#[test]
fn tex_len_counts_live_textures_after_compacting() {
    let mut t: Texman<u8> = Texman::new();
    t.upload(1, 0);
    t.remove(0).unwrap();
    assert_eq!(t.slot_count(), 1);
    assert_eq!(t.tex_len(), 0);
    assert_eq!(t.slot_count(), 0);
    assert!(!t.get_dirty());
    t.upload(2, 3);
    t.upload(3, 4);
    t.upload(4, 3);
    assert_eq!(t.tex_len(), 2);
    assert_eq!(t.payloads(), &vec![3, 4]);
    assert_eq!(t.resolve(4), Ok(0));
    assert_eq!(t.resolve(3), Ok(1));
}
