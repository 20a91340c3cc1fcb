use ash::backend::{cache_path, chr_rootfs_path, clean_cache, PackageBackend};
use ash::config::{aur_check, read_mutable_dirs, split_dirs};
use ash::desc::strip_tag;
use ash::host::{check_update, chroot_check, find_seq, get_current_snapshot, get_tmp, is_efi,
    HostContext, TmpSlot};
use ash::num::u64_to_dec;
use ash::Error;

#[test]
fn aur_switch_reads_true_and_false_only() {
    assert_eq!(aur_check(&b"aur = True\n".to_vec()), Ok(true));
    assert_eq!(aur_check(&b"aur = False\n".to_vec()), Ok(false));
    assert_eq!(
        aur_check(&b"aur = maybe\n".to_vec()),
        Err(Error::Io { id: 0 })
    );
    assert_eq!(aur_check(&b"other = True\n".to_vec()), Err(Error::Io { id: 0 }));
    assert_eq!(aur_check(&Vec::new()), Err(Error::Io { id: 0 }));
}

#[test]
fn mutable_dirs_are_split_on_commas_without_empties() {
    let text = b"mutable_dirs = var/lib,,etc/foo,\nmutable_dirs_shared = opt\n".to_vec();
    let cfg = read_mutable_dirs(&text);
    assert_eq!(cfg.dirs, vec![b"var/lib".to_vec(), b"etc/foo".to_vec()]);
    assert_eq!(cfg.shared, vec![b"opt".to_vec()]);
    let none = read_mutable_dirs(&b"aur = False\n".to_vec());
    assert!(none.dirs.is_empty());
    assert!(none.shared.is_empty());
}

#[test]
fn split_dirs_drops_empty_entries() {
    assert_eq!(
        split_dirs(&b"a,,b,".to_vec()),
        vec![b"a".to_vec(), b"b".to_vec()]
    );
    assert_eq!(split_dirs(&b"".to_vec()), Vec::<Vec<u8>>::new());
    assert_eq!(split_dirs(&b",,,".to_vec()), Vec::<Vec<u8>>::new());
    assert_eq!(split_dirs(&b"one".to_vec()), vec![b"one".to_vec()]);
}

#[test]
fn deployment_slot_is_read_off_the_mount_table() {
    let aux = b"/dev/sda2 /.snapshots/rootfs/snapshot-deploy-aux / btrfs rw 0 0".to_vec();
    let main = b"/dev/sda2 /.snapshots/rootfs/snapshot-deploy / btrfs rw 0 0".to_vec();
    assert_eq!(get_tmp(&aux), TmpSlot::DeployAux);
    assert_eq!(get_tmp(&main), TmpSlot::Deploy);
}

#[test]
fn chroot_detection_looks_for_the_snapshot_storage() {
    let outside = b"/dev/sda2 /.snapshots btrfs rw 0 0".to_vec();
    let inside = b"/dev/sda2 / btrfs rw 0 0".to_vec();
    assert!(!chroot_check(&outside));
    assert!(chroot_check(&inside));
}

#[test]
fn find_seq_is_plain_substring_search() {
    assert!(find_seq(&b"abcde".to_vec(), &b"cd".to_vec()));
    assert!(!find_seq(&b"abcde".to_vec(), &b"ce".to_vec()));
    assert!(find_seq(&b"abc".to_vec(), &Vec::new()));
    assert!(!find_seq(&b"ab".to_vec(), &b"abc".to_vec()));
}

#[test]
fn current_snapshot_parses_one_trimmed_number() {
    assert_eq!(get_current_snapshot(&b"5\n".to_vec()), Ok(5));
    assert_eq!(get_current_snapshot(&b"12 \n".to_vec()), Ok(12));
    assert_eq!(get_current_snapshot(&b"0".to_vec()), Ok(0));
    assert_eq!(get_current_snapshot(&b"abc".to_vec()), Err(Error::Io { id: 0 }));
    assert_eq!(get_current_snapshot(&b"1 2".to_vec()), Err(Error::Io { id: 0 }));
    assert_eq!(get_current_snapshot(&Vec::new()), Err(Error::Io { id: 0 }));
}

#[test]
fn update_state_reads_the_recorded_marks() {
    let failed = check_update(&b"1".to_vec());
    assert!(failed.failed && !failed.succeeded);
    let ok = check_update(&b"0".to_vec());
    assert!(!ok.failed && ok.succeeded);
    let neither = check_update(&b"x".to_vec());
    assert!(!neither.failed && !neither.succeeded);
}

#[test]
fn efi_flag_comes_from_the_host_context() {
    let h = HostContext {
        efi: true,
        current_snapshot: 3,
        tmp: TmpSlot::Deploy,
    };
    assert!(is_efi(&h));
    let h2 = HostContext { efi: false, ..h };
    assert!(!is_efi(&h2));
}

#[test]
fn cache_paths_name_each_backend_store() {
    assert_eq!(cache_path(PackageBackend::Apt), b"var/cache/apt".to_vec());
    assert_eq!(cache_path(PackageBackend::Dnf), b"var/cache/dnf".to_vec());
    assert_eq!(
        cache_path(PackageBackend::Pacman),
        b"var/cache/pacman/pkg".to_vec()
    );
    assert_eq!(
        chr_rootfs_path(5),
        b"/.snapshots/rootfs/snapshot-chr5".to_vec()
    );
    assert_eq!(
        clean_cache(PackageBackend::Pacman, 5),
        b"/.snapshots/rootfs/snapshot-chr5/var/cache/pacman/pkg".to_vec()
    );
    assert_eq!(
        clean_cache(PackageBackend::Apt, 12),
        b"/.snapshots/rootfs/snapshot-chr12/var/cache/apt".to_vec()
    );
}

#[test]
fn decimal_rendering_matches() {
    assert_eq!(u64_to_dec(0), b"0".to_vec());
    assert_eq!(u64_to_dec(7), b"7".to_vec());
    assert_eq!(u64_to_dec(1203), b"1203".to_vec());
    assert_eq!(
        u64_to_dec(u64::MAX),
        b"18446744073709551615".to_vec()
    );
}

#[test]
fn tag_stripping_removes_each_occurrence_exactly() {
    assert_eq!(strip_tag(&b"a MUTABLE b".to_vec()), b"a  b".to_vec());
    assert_eq!(strip_tag(&b"MUTABLEMUTABLE".to_vec()), b"".to_vec());
    assert_eq!(strip_tag(&b"MUTABL".to_vec()), b"MUTABL".to_vec());
    assert_eq!(strip_tag(&b"no tag".to_vec()), b"no tag".to_vec());
}
