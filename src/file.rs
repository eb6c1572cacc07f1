//! File types, file status and the permission checks made on them.
use vstd::prelude::*;

verus! {

/// A filesystem node ID.
pub type INode = u64;
/// A file mode: UNIX permissions in the 12 least significant bits, the UNIX type above them.
pub type Mode = u32;
/// A user ID.
pub type Uid = u16;
/// A group ID.
pub type Gid = u16;
/// A timestamp, in seconds.
pub type Timestamp = u64;

/// File type: socket
pub const S_IFSOCK: Mode = 0o140000;
/// File type: symbolic link
pub const S_IFLNK: Mode = 0o120000;
/// File type: regular file
pub const S_IFREG: Mode = 0o100000;
/// File type: block device
pub const S_IFBLK: Mode = 0o060000;
/// File type: directory
pub const S_IFDIR: Mode = 0o040000;
/// File type: character device
pub const S_IFCHR: Mode = 0o020000;
/// File type: FIFO
pub const S_IFIFO: Mode = 0o010000;

/// The bits of a mode that hold the file type.
pub const S_IFMT_MASK: Mode = 0o770000;

/// Directory entry type: Block Device
pub const DT_BLK: u8 = 6;
/// Directory entry type: Char Device
pub const DT_CHR: u8 = 2;
/// Directory entry type: Directory
pub const DT_DIR: u8 = 4;
/// Directory entry type: FIFO
pub const DT_FIFO: u8 = 1;
/// Directory entry type: Symbolic Link
pub const DT_LNK: u8 = 10;
/// Directory entry type: Regular file
pub const DT_REG: u8 = 8;
/// Directory entry type: Socket
pub const DT_SOCK: u8 = 12;
/// Directory entry type: Unknown
pub const DT_UNKNOWN: u8 = 0;

/// User: read permission.
pub const S_IRUSR: Mode = 0o400;
/// User: write permission.
pub const S_IWUSR: Mode = 0o200;
/// User: execute permission.
pub const S_IXUSR: Mode = 0o100;
/// Group: read permission.
pub const S_IRGRP: Mode = 0o040;
/// Group: write permission.
pub const S_IWGRP: Mode = 0o020;
/// Group: execute permission.
pub const S_IXGRP: Mode = 0o010;
/// Others: read permission.
pub const S_IROTH: Mode = 0o004;
/// Others: write permission.
pub const S_IWOTH: Mode = 0o002;
/// Others: execute permission.
pub const S_IXOTH: Mode = 0o001;

/// The user ID of the superuser.
pub const ROOT_UID: Uid = 0;
/// The group ID of the superuser.
pub const ROOT_GID: Gid = 0;

/// The type of a device.
#[derive(Clone, Copy, Debug, PartialEq, Eq, Structural)]
pub enum DeviceType {
    /// A block device.
    Block,
    /// A character device.
    Char,
}

/// Enumeration representing the different file types.
#[derive(Clone, Copy, Debug, PartialEq, Eq, Structural)]
pub enum FileType {
    /// A regular file storing data.
    Regular,
    /// A directory, containing other files.
    Directory,
    /// A symbolic link, pointing to another file.
    Link,
    /// A named pipe.
    Fifo,
    /// A Unix domain socket.
    Socket,
    /// A Block device file.
    BlockDevice,
    /// A Character device file.
    CharDevice,
}

/// The file type that a mode designates; a mode with no type bits designates a regular file.
pub open spec fn type_of_mode(mode: Mode) -> Option<FileType> {
    let t = mode & S_IFMT_MASK;
    if t == S_IFSOCK {
        Some(FileType::Socket)
    } else if t == S_IFLNK {
        Some(FileType::Link)
    } else if t == S_IFREG || t == 0 {
        Some(FileType::Regular)
    } else if t == S_IFBLK {
        Some(FileType::BlockDevice)
    } else if t == S_IFDIR {
        Some(FileType::Directory)
    } else if t == S_IFCHR {
        Some(FileType::CharDevice)
    } else if t == S_IFIFO {
        Some(FileType::Fifo)
    } else {
        None
    }
}

impl FileType {
    /// The type bits of the mode of a file of this type.
    pub open spec fn mode_spec(self) -> Mode {
        match self {
            FileType::Socket => S_IFSOCK,
            FileType::Link => S_IFLNK,
            FileType::Regular => S_IFREG,
            FileType::BlockDevice => S_IFBLK,
            FileType::Directory => S_IFDIR,
            FileType::CharDevice => S_IFCHR,
            FileType::Fifo => S_IFIFO,
        }
    }

    /// Returns the type corresponding to the given mode `mode`, or `None` if its type bits
    /// designate no type.
    pub fn from_mode(mode: Mode) -> (r: Option<Self>)
        ensures
            r == type_of_mode(mode),
    {
        let t = mode & S_IFMT_MASK;
        if t == S_IFSOCK {
            Some(FileType::Socket)
        } else if t == S_IFLNK {
            Some(FileType::Link)
        } else if t == S_IFREG || t == 0 {
            Some(FileType::Regular)
        } else if t == S_IFBLK {
            Some(FileType::BlockDevice)
        } else if t == S_IFDIR {
            Some(FileType::Directory)
        } else if t == S_IFCHR {
            Some(FileType::CharDevice)
        } else if t == S_IFIFO {
            Some(FileType::Fifo)
        } else {
            None
        }
    }

    /// Returns the mode corresponding to the type.
    pub fn to_mode(&self) -> (r: Mode)
        ensures
            r == self.mode_spec(),
            type_of_mode(r) == Some(*self),
    {
        let r = match self {
            FileType::Socket => S_IFSOCK,
            FileType::Link => S_IFLNK,
            FileType::Regular => S_IFREG,
            FileType::BlockDevice => S_IFBLK,
            FileType::Directory => S_IFDIR,
            FileType::CharDevice => S_IFCHR,
            FileType::Fifo => S_IFIFO,
        };
        assert(r & S_IFMT_MASK == r) by (bit_vector)
            requires
                r == 0o140000u32 || r == 0o120000u32 || r == 0o100000u32 || r == 0o060000u32
                    || r == 0o040000u32 || r == 0o020000u32 || r == 0o010000u32,
        ;
        r
    }

    /// Returns the directory entry type.
    pub fn to_dirent_type(&self) -> (r: u8)
        ensures
            r == match *self {
                FileType::Socket => DT_SOCK,
                FileType::Link => DT_LNK,
                FileType::Regular => DT_REG,
                FileType::BlockDevice => DT_BLK,
                FileType::Directory => DT_DIR,
                FileType::CharDevice => DT_CHR,
                FileType::Fifo => DT_FIFO,
            },
    {
        match self {
            FileType::Socket => DT_SOCK,
            FileType::Link => DT_LNK,
            FileType::Regular => DT_REG,
            FileType::BlockDevice => DT_BLK,
            FileType::Directory => DT_DIR,
            FileType::CharDevice => DT_CHR,
            FileType::Fifo => DT_FIFO,
        }
    }

    /// Returns the device type, if the file is a device.
    pub fn to_device_type(&self) -> (r: Option<DeviceType>)
        ensures
            r == match *self {
                FileType::BlockDevice => Some(DeviceType::Block),
                FileType::CharDevice => Some(DeviceType::Char),
                _ => None,
            },
    {
        match self {
            FileType::BlockDevice => Some(DeviceType::Block),
            FileType::CharDevice => Some(DeviceType::Char),
            _ => None,
        }
    }
}

/// The location of a file.
#[derive(Clone, Copy, Debug, PartialEq, Eq, Structural)]
pub struct FileLocation {
    /// The ID of the mountpoint of the file.
    pub mountpoint_id: u32,
    /// The file's inode.
    pub inode: INode,
}

impl FileLocation {
    /// Location to nowhere.
    pub fn nowhere() -> (r: Self)
        ensures
            r.mountpoint_id == 0,
            r.inode == 0,
    {
        FileLocation { mountpoint_id: 0, inode: 0 }
    }
}

/// File status information.
#[derive(Clone, Copy, Debug)]
pub struct Stat {
    /// The file's permissions.
    pub mode: Mode,
    /// The number of links to the file.
    pub nlink: u16,
    /// The file owner's user ID.
    pub uid: Uid,
    /// The file owner's group ID.
    pub gid: Gid,
    /// The size of the file in bytes.
    pub size: u64,
    /// The number of blocks occupied by the file.
    pub blocks: u64,
    /// If the file is a device file, this is the major number.
    pub dev_major: u32,
    /// If the file is a device file, this is the minor number.
    pub dev_minor: u32,
    /// Timestamp of the last modification of the metadata.
    pub ctime: Timestamp,
    /// Timestamp of the last modification of the file's content.
    pub mtime: Timestamp,
    /// Timestamp of the last access to the file.
    pub atime: Timestamp,
}

impl Default for Stat {
    fn default() -> (r: Self)
        ensures
            r.mode == 0o444,
            r.nlink == 1,
            r.uid == 0 && r.gid == 0,
            r.size == 0 && r.blocks == 0,
            r.dev_major == 0 && r.dev_minor == 0,
            r.ctime == 0 && r.mtime == 0 && r.atime == 0,
    {
        Stat {
            mode: 0o444,
            nlink: 1,
            uid: 0,
            gid: 0,
            size: 0,
            blocks: 0,
            dev_major: 0,
            dev_minor: 0,
            ctime: 0,
            mtime: 0,
            atime: 0,
        }
    }
}

impl Stat {
    /// Returns the file type, or `None` if the mode designates no type.
    pub fn get_type(&self) -> (r: Option<FileType>)
        ensures
            r == type_of_mode(self.mode),
    {
        FileType::from_mode(self.mode)
    }

    /// Sets the owner user ID, updating `ctime` to `now`, the current time.
    pub fn set_uid(&mut self, uid: Uid, now: Timestamp)
        ensures
            *final(self) == (Stat { uid, ctime: now, ..*old(self) }),
    {
        self.uid = uid;
        self.ctime = now;
    }

    /// Sets the owner group ID, updating `ctime` to `now`, the current time.
    pub fn set_gid(&mut self, gid: Gid, now: Timestamp)
        ensures
            *final(self) == (Stat { gid, ctime: now, ..*old(self) }),
    {
        self.gid = gid;
        self.ctime = now;
    }
}

/// Whether the IDs `uid`, `gid` may use a file whose permission bits for the owner, the
/// group and the others are `u`, `g` and `o`, the superuser passing always.
pub open spec fn permits(uid: Uid, gid: Gid, stat: Stat, u: Mode, g: Mode, o: Mode) -> bool {
    ||| uid == ROOT_UID
    ||| gid == ROOT_GID
    ||| (stat.mode & u != 0 && stat.uid == uid)
    ||| (stat.mode & g != 0 && stat.gid == gid)
    ||| stat.mode & o != 0
}

/// Whether the IDs may execute the file: the superuser passes unless the file is regular.
pub open spec fn permits_execute(uid: Uid, gid: Gid, stat: Stat) -> bool {
    ||| (type_of_mode(stat.mode) != Some(FileType::Regular) && (uid == ROOT_UID || gid
        == ROOT_GID))
    ||| (stat.mode & S_IXUSR != 0 && stat.uid == uid)
    ||| (stat.mode & S_IXGRP != 0 && stat.gid == gid)
    ||| stat.mode & S_IXOTH != 0
}

/// The set of IDs an agent acts with.
#[derive(Clone, Copy, Debug, PartialEq, Eq, Structural)]
pub struct AccessProfile {
    /// The real user ID.
    pub uid: Uid,
    /// The real group ID.
    pub gid: Gid,
    /// The effective user ID.
    pub euid: Uid,
    /// The effective group ID.
    pub egid: Gid,
}

impl AccessProfile {
    /// The profile of the kernel itself, with every ID set to the superuser's.
    pub open spec fn kernel_spec() -> AccessProfile {
        AccessProfile { uid: ROOT_UID, gid: ROOT_GID, euid: ROOT_UID, egid: ROOT_GID }
    }

    /// Returns the profile of the kernel itself, with every ID set to the superuser's.
    pub fn kernel() -> (r: AccessProfile)
        ensures
            r == Self::kernel_spec(),
    {
        AccessProfile { uid: ROOT_UID, gid: ROOT_GID, euid: ROOT_UID, egid: ROOT_GID }
    }

    /// The user ID used: effective or real.
    pub open spec fn uid_for(self, effective: bool) -> Uid {
        if effective {
            self.euid
        } else {
            self.uid
        }
    }

    /// The group ID used: effective or real.
    pub open spec fn gid_for(self, effective: bool) -> Gid {
        if effective {
            self.egid
        } else {
            self.gid
        }
    }

    fn check_read_access_impl(uid: Uid, gid: Gid, stat: &Stat) -> (r: bool)
        ensures
            r == permits(uid, gid, *stat, S_IRUSR, S_IRGRP, S_IROTH),
    {
        if uid == ROOT_UID || gid == ROOT_GID {
            return true;
        }
        if stat.mode & S_IRUSR != 0 && stat.uid == uid {
            return true;
        }
        if stat.mode & S_IRGRP != 0 && stat.gid == gid {
            return true;
        }
        stat.mode & S_IROTH != 0
    }

    /// Tells whether the agent can read a file with the given status, with its effective IDs
    /// if `effective`, else with its real IDs.
    pub fn check_read_access(&self, stat: &Stat, effective: bool) -> (r: bool)
        ensures
            r == permits(
                self.uid_for(effective),
                self.gid_for(effective),
                *stat,
                S_IRUSR,
                S_IRGRP,
                S_IROTH,
            ),
    {
        let (uid, gid) = if effective {
            (self.euid, self.egid)
        } else {
            (self.uid, self.gid)
        };
        Self::check_read_access_impl(uid, gid, stat)
    }

    /// Tells whether the agent can read a file with the given status, with its effective IDs.
    pub fn can_read_file(&self, stat: &Stat) -> (r: bool)
        ensures
            r == permits(self.euid, self.egid, *stat, S_IRUSR, S_IRGRP, S_IROTH),
    {
        self.check_read_access(stat, true)
    }

    /// Tells whether the agent can list the files of a directory with the given status, **not**
    /// including access to the files' contents and metadata.
    pub fn can_list_directory(&self, stat: &Stat) -> (r: bool)
        ensures
            r == permits(self.euid, self.egid, *stat, S_IRUSR, S_IRGRP, S_IROTH),
    {
        self.can_read_file(stat)
    }

    fn check_write_access_impl(uid: Uid, gid: Gid, stat: &Stat) -> (r: bool)
        ensures
            r == permits(uid, gid, *stat, S_IWUSR, S_IWGRP, S_IWOTH),
    {
        if uid == ROOT_UID || gid == ROOT_GID {
            return true;
        }
        if stat.mode & S_IWUSR != 0 && stat.uid == uid {
            return true;
        }
        if stat.mode & S_IWGRP != 0 && stat.gid == gid {
            return true;
        }
        stat.mode & S_IWOTH != 0
    }

    /// Tells whether the agent can write a file with the given status, with its effective IDs
    /// if `effective`, else with its real IDs.
    pub fn check_write_access(&self, stat: &Stat, effective: bool) -> (r: bool)
        ensures
            r == permits(
                self.uid_for(effective),
                self.gid_for(effective),
                *stat,
                S_IWUSR,
                S_IWGRP,
                S_IWOTH,
            ),
    {
        let (uid, gid) = if effective {
            (self.euid, self.egid)
        } else {
            (self.uid, self.gid)
        };
        Self::check_write_access_impl(uid, gid, stat)
    }

    /// Tells whether the agent can write a file with the given status, with its effective IDs.
    pub fn can_write_file(&self, stat: &Stat) -> (r: bool)
        ensures
            r == permits(self.euid, self.egid, *stat, S_IWUSR, S_IWGRP, S_IWOTH),
    {
        self.check_write_access(stat, true)
    }

    /// Tells whether the agent can modify the entries of a directory with the given status:
    /// create, delete and rename files. This takes both write and execute permission.
    pub fn can_write_directory(&self, stat: &Stat) -> (r: bool)
        ensures
            r == (permits(self.euid, self.egid, *stat, S_IWUSR, S_IWGRP, S_IWOTH)
                && permits_execute(self.euid, self.egid, *stat)),
    {
        self.can_write_file(stat) && self.can_execute_file(stat)
    }

    fn check_execute_access_impl(uid: Uid, gid: Gid, stat: &Stat) -> (r: bool)
        ensures
            r == permits_execute(uid, gid, *stat),
    {
        let t = stat.get_type();
        let regular = match t {
            Some(FileType::Regular) => true,
            _ => false,
        };
        if !regular && (uid == ROOT_UID || gid == ROOT_GID) {
            return true;
        }
        if stat.mode & S_IXUSR != 0 && stat.uid == uid {
            return true;
        }
        if stat.mode & S_IXGRP != 0 && stat.gid == gid {
            return true;
        }
        stat.mode & S_IXOTH != 0
    }

    /// Tells whether the agent can execute a file with the given status, with its effective
    /// IDs if `effective`, else with its real IDs.
    pub fn check_execute_access(&self, stat: &Stat, effective: bool) -> (r: bool)
        ensures
            r == permits_execute(self.uid_for(effective), self.gid_for(effective), *stat),
    {
        let (uid, gid) = if effective {
            (self.euid, self.egid)
        } else {
            (self.uid, self.gid)
        };
        Self::check_execute_access_impl(uid, gid, stat)
    }

    /// Tells whether the agent can execute a file with the given status, with its effective
    /// IDs.
    pub fn can_execute_file(&self, stat: &Stat) -> (r: bool)
        ensures
            r == permits_execute(self.euid, self.egid, *stat),
    {
        self.check_execute_access(stat, true)
    }

    /// Tells whether the agent can access the files of a directory with the given status,
    /// *if the name of the file is known*.
    pub fn can_search_directory(&self, stat: &Stat) -> (r: bool)
        ensures
            r == permits_execute(self.euid, self.egid, *stat),
    {
        self.can_execute_file(stat)
    }

    /// Tells whether the agent can set the permissions of a file with the given status: the
    /// superuser and the file's owner can.
    pub fn can_set_file_permissions(&self, stat: &Stat) -> (r: bool)
        ensures
            r == (self.euid == ROOT_UID || self.euid == stat.uid),
    {
        self.euid == ROOT_UID || self.euid == stat.uid
    }
}

/// Settings for a path resolution operation.
#[derive(Clone, Copy, Debug)]
pub struct ResolutionSettings {
    /// The location of the root directory for the operation. Resolution *cannot* access a
    /// parent of this path.
    pub root: FileLocation,
    /// The beginning position of the path resolution.
    pub start: FileLocation,
    /// The access profile to use for resolution.
    pub access_profile: AccessProfile,
    /// If `true`, the path is resolved for creation: the operation does not fail if the file
    /// does not exist.
    pub create: bool,
    /// If `true` and if the last component of the path is a symbolic link, path resolution
    /// follows it.
    pub follow_link: bool,
}

impl ResolutionSettings {
    /// Kernel access from the root location `root`, following symbolic links.
    pub fn kernel_follow(root: FileLocation) -> (r: Self)
        ensures
            r.root == root,
            r.start == root,
            r.access_profile == AccessProfile::kernel_spec(),
            !r.create,
            r.follow_link,
    {
        ResolutionSettings {
            root,
            start: root,
            access_profile: AccessProfile::kernel(),
            create: false,
            follow_link: true,
        }
    }

    /// Kernel access from the root location `root`, without following symbolic links.
    pub fn kernel_nofollow(root: FileLocation) -> (r: Self)
        ensures
            r.root == root,
            r.start == root,
            r.access_profile == AccessProfile::kernel_spec(),
            !r.create,
            !r.follow_link,
    {
        let s = Self::kernel_follow(root);
        ResolutionSettings { follow_link: false, ..s }
    }

    /// The settings of a process whose root directory is `chroot`, whose working directory is
    /// `cwd` and whose IDs are `access_profile`; `follow_links` tells whether symbolic links
    /// are followed.
    pub fn for_process(
        chroot: FileLocation,
        cwd: FileLocation,
        access_profile: AccessProfile,
        follow_links: bool,
    ) -> (r: Self)
        ensures
            r.root == chroot,
            r.start == cwd,
            r.access_profile == access_profile,
            !r.create,
            r.follow_link == follow_links,
    {
        ResolutionSettings { root: chroot, start: cwd, access_profile, create: false, follow_link: follow_links }
    }
}

} // verus!
