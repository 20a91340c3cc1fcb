use ash::engine::{
    ash_chroot_mounts, mount_targets, unmount_targets, MountTarget, MutableDirSpec,
    TransactionEngine,
};
use ash::store::SubvolumeStore;
use ash::Error;

fn engine_with(ids: &[u64]) -> TransactionEngine {
    let store = SubvolumeStore::from_parts(
        ids.to_vec(),
        ids.to_vec(),
        ids.to_vec(),
        Vec::new(),
        Vec::new(),
    )
    .unwrap();
    TransactionEngine::new(store)
}

fn no_extra_dirs() -> MutableDirSpec {
    MutableDirSpec {
        dirs: Vec::new(),
        shared: Vec::new(),
    }
}

#[test]
fn prepare_stages_the_working_copy_and_mounts() {
    let mut e = engine_with(&[1]);
    e.prepare(1, &no_extra_dirs()).unwrap();
    assert!(e.subvolumes().chr_exists(1));
    assert_eq!(e.mount_list().len(), 9);
    assert_eq!(e.mount_list()[0].target, MountTarget::SelfBind);
    assert_eq!(e.mount_list()[8].target, MountTarget::ResolvConf);
}

#[test]
fn second_prepare_conflicts_and_changes_nothing() {
    let mut e = engine_with(&[1]);
    e.prepare(1, &no_extra_dirs()).unwrap();
    let mounts_before = e.mount_list().clone();
    assert_eq!(e.prepare(1, &no_extra_dirs()), Err(Error::Conflict { id: 1 }));
    assert_eq!(e.mount_list(), &mounts_before);
    assert!(e.subvolumes().chr_exists(1));
    assert_eq!(e.prepare(9, &no_extra_dirs()), Err(Error::NotFound { id: 9 }));
}

#[test]
fn prepare_then_abort_restores_the_state() {
    let mut e = engine_with(&[1, 2]);
    e.prepare(1, &no_extra_dirs()).unwrap();
    e.abort(1);
    assert!(!e.subvolumes().chr_exists(1));
    assert!(e.subvolumes().triad_exists(1));
    assert!(e.subvolumes().triad_exists(2));
    assert_eq!(e.subvolumes().content_token(1), Some(0));
    assert_eq!(e.mount_list().len(), 0);
    // abort is idempotent and safe on ids that were never prepared
    e.abort(1);
    e.abort(7);
    assert!(e.subvolumes().triad_exists(1));
}

#[test]
fn effect_then_commit_keeps_the_change_and_releases_the_lock() {
    let mut e = engine_with(&[1]);
    e.prepare(1, &no_extra_dirs()).unwrap();
    e.run_effect(1, 42).unwrap();
    e.post_transactions(1).unwrap();
    assert_eq!(e.subvolumes().content_token(1), Some(42));
    assert!(!e.subvolumes().chr_exists(1));
    assert!(e.subvolumes().triad_exists(1));
    assert_eq!(e.mount_list().len(), 0);
}

#[test]
fn commit_preserves_the_working_copy_mutability() {
    let mut store = SubvolumeStore::from_parts(
        vec![1],
        vec![1],
        vec![1],
        Vec::new(),
        vec![1],
    )
    .unwrap();
    assert!(store.check_mutability(1));
    let mut e = TransactionEngine::new(store);
    e.prepare(1, &no_extra_dirs()).unwrap();
    e.post_transactions(1).unwrap();
    assert!(e.subvolumes().check_mutability(1));
}

#[test]
fn effect_and_commit_need_an_open_transaction() {
    let mut e = engine_with(&[1]);
    assert_eq!(e.run_effect(1, 7), Err(Error::NotFound { id: 1 }));
    assert_eq!(e.post_transactions(1), Err(Error::NotFound { id: 1 }));
}

#[test]
fn unmount_order_is_the_strict_reverse_of_mount_order() {
    let m = mount_targets(2, 1);
    let u = unmount_targets(2, 1);
    assert_eq!(m.len(), 12);
    assert_eq!(u.len(), 12);
    let mut rev = m.clone();
    rev.reverse();
    assert_eq!(u, rev);
    assert_eq!(m[9], MountTarget::MutableDir { idx: 0 });
    assert_eq!(m[11], MountTarget::SharedDir { idx: 0 });
    assert_eq!(u[0], MountTarget::SharedDir { idx: 0 });
    assert_eq!(u[11], MountTarget::SelfBind);
}

#[test]
fn chroot_mounts_add_efi_variables_only_on_efi_hosts() {
    let plain = ash_chroot_mounts(false);
    let efi = ash_chroot_mounts(true);
    assert_eq!(plain.len(), 9);
    assert_eq!(efi.len(), 10);
    assert_eq!(efi[9], MountTarget::Efivars);
}

#[test]
fn mounts_of_other_copies_survive_an_abort() {
    let mut e = engine_with(&[1, 2]);
    e.prepare(1, &no_extra_dirs()).unwrap();
    e.prepare(2, &no_extra_dirs()).unwrap();
    assert_eq!(e.mount_list().len(), 18);
    e.abort(1);
    assert_eq!(e.mount_list().len(), 9);
    assert!(e.mount_list().iter().all(|m| m.id == 2));
    assert!(e.subvolumes().chr_exists(2));
}
