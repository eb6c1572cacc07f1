use maestro::mem_info::MemInfo;
use maestro::file::{
    AccessProfile, DeviceType, FileLocation, FileType, ResolutionSettings, Stat, DT_BLK, DT_CHR,
    DT_DIR, DT_FIFO, DT_LNK, DT_REG, DT_SOCK, S_IFBLK, S_IFCHR, S_IFDIR, S_IFIFO, S_IFLNK, S_IFREG,
    S_IFSOCK,
};

const ALL: [FileType; 7] = [
    FileType::Regular,
    FileType::Directory,
    FileType::Link,
    FileType::Fifo,
    FileType::Socket,
    FileType::BlockDevice,
    FileType::CharDevice,
];

fn user(uid: u16, gid: u16) -> AccessProfile {
    AccessProfile { uid, gid, euid: uid, egid: gid }
}

fn stat(mode: u32, uid: u16, gid: u16) -> Stat {
    Stat { mode, uid, gid, ..Stat::default() }
}

#[test]
fn file_type_from_mode() {
    assert_eq!(FileType::from_mode(S_IFSOCK | 0o755), Some(FileType::Socket));
    assert_eq!(FileType::from_mode(S_IFLNK | 0o777), Some(FileType::Link));
    assert_eq!(FileType::from_mode(S_IFREG | 0o644), Some(FileType::Regular));
    assert_eq!(FileType::from_mode(0o644), Some(FileType::Regular));
    assert_eq!(FileType::from_mode(S_IFBLK), Some(FileType::BlockDevice));
    assert_eq!(FileType::from_mode(S_IFDIR | 0o755), Some(FileType::Directory));
    assert_eq!(FileType::from_mode(S_IFCHR), Some(FileType::CharDevice));
    assert_eq!(FileType::from_mode(S_IFIFO), Some(FileType::Fifo));
    assert_eq!(FileType::from_mode(0o170000), None);
}

#[test]
fn file_type_mode_round_trip() {
    for t in ALL {
        assert_eq!(FileType::from_mode(t.to_mode()), Some(t));
    }
    assert_eq!(FileType::Directory.to_mode(), S_IFDIR);
}

#[test]
fn file_type_dirent_and_device() {
    assert_eq!(FileType::Socket.to_dirent_type(), DT_SOCK);
    assert_eq!(FileType::Link.to_dirent_type(), DT_LNK);
    assert_eq!(FileType::Regular.to_dirent_type(), DT_REG);
    assert_eq!(FileType::BlockDevice.to_dirent_type(), DT_BLK);
    assert_eq!(FileType::Directory.to_dirent_type(), DT_DIR);
    assert_eq!(FileType::CharDevice.to_dirent_type(), DT_CHR);
    assert_eq!(FileType::Fifo.to_dirent_type(), DT_FIFO);
    assert_eq!(FileType::BlockDevice.to_device_type(), Some(DeviceType::Block));
    assert_eq!(FileType::CharDevice.to_device_type(), Some(DeviceType::Char));
    assert_eq!(FileType::Regular.to_device_type(), None);
}

#[test]
fn location_nowhere() {
    let l = FileLocation::nowhere();
    assert_eq!(l.mountpoint_id, 0);
    assert_eq!(l.inode, 0);
}

#[test]
fn stat_defaults_and_setters() {
    let mut s = Stat::default();
    assert_eq!(s.mode, 0o444);
    assert_eq!(s.nlink, 1);
    assert_eq!(s.get_type(), Some(FileType::Regular));
    s.set_uid(1000, 42);
    assert_eq!(s.uid, 1000);
    assert_eq!(s.ctime, 42);
    s.set_gid(100, 43);
    assert_eq!(s.gid, 100);
    assert_eq!(s.ctime, 43);
    assert_eq!(s.mode, 0o444);
}

#[test]
fn read_and_write_permissions() {
    let owner = user(1000, 1000);
    let group = user(1001, 1000);
    let other = user(1002, 1002);
    let root = user(0, 0);
    let s = stat(S_IFREG | 0o640, 1000, 1000);
    assert!(owner.can_read_file(&s));
    assert!(owner.can_write_file(&s));
    assert!(group.can_read_file(&s));
    assert!(!group.can_write_file(&s));
    assert!(!other.can_read_file(&s));
    assert!(!other.can_write_file(&s));
    assert!(root.can_read_file(&s));
    assert!(root.can_write_file(&s));
    let mixed = AccessProfile { uid: 1002, gid: 1002, euid: 1000, egid: 1000 };
    assert!(mixed.check_read_access(&s, true));
    assert!(!mixed.check_read_access(&s, false));
    assert!(mixed.check_write_access(&s, true));
    assert!(!mixed.check_write_access(&s, false));
}

#[test]
fn execute_permissions() {
    let root = user(0, 0);
    let other = user(1002, 1002);
    let reg = stat(S_IFREG | 0o644, 1000, 1000);
    assert!(!root.can_execute_file(&reg));
    let dir = stat(S_IFDIR | 0o700, 1000, 1000);
    assert!(root.can_execute_file(&dir));
    assert!(root.can_search_directory(&dir));
    assert!(!other.can_search_directory(&dir));
    let exe = stat(S_IFREG | 0o751, 1000, 1000);
    assert!(other.can_execute_file(&exe));
    assert!(other.check_execute_access(&exe, false));
    let d2 = stat(S_IFDIR | 0o755, 1000, 1000);
    assert!(user(1000, 1000).can_write_directory(&d2));
    assert!(!other.can_write_directory(&d2));
    assert!(other.can_list_directory(&d2));
}

#[test]
fn permission_setting() {
    let s = stat(S_IFREG | 0o644, 1000, 1000);
    assert!(user(1000, 5).can_set_file_permissions(&s));
    assert!(user(0, 5).can_set_file_permissions(&s));
    assert!(!user(1001, 1000).can_set_file_permissions(&s));
}

#[test]
fn resolution_settings() {
    let root = FileLocation { mountpoint_id: 1, inode: 2 };
    let k = ResolutionSettings::kernel_follow(root);
    assert_eq!(k.root, root);
    assert_eq!(k.start, root);
    assert_eq!(k.access_profile, AccessProfile::kernel());
    assert!(!k.create);
    assert!(k.follow_link);
    let n = ResolutionSettings::kernel_nofollow(root);
    assert!(!n.follow_link);
    let cwd = FileLocation { mountpoint_id: 1, inode: 9 };
    let p = ResolutionSettings::for_process(root, cwd, user(5, 6), false);
    assert_eq!(p.start, cwd);
    assert_eq!(p.access_profile, user(5, 6));
    assert!(!p.follow_link);
}

#[test]
fn mem_info_reads_windows() {
    let mut f = MemInfo {};
    let content: Vec<u8> = b"MemTotal: 42 kB\n".to_vec();
    let mut buff = vec![0u8; 4];
    assert_eq!(f.read(&content, 0, &mut buff), (4, false));
    assert_eq!(&buff, b"MemT");
    let mut buff = vec![0u8; 64];
    assert_eq!(f.read(&content, 10, &mut buff), (6, true));
    assert_eq!(&buff[..6], b"42 kB\n");
    assert_eq!(buff[6], 0);
    let mut empty: Vec<u8> = Vec::new();
    assert_eq!(f.read(&content, 0, &mut empty), (0, false));
    assert_eq!(f.get_size(), 0);
    assert_eq!(f.write(0, &content), Err(maestro::errno::Errno::InvalidArgument));
}
