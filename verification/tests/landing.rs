//! How a result reaches its file.

use sztools::landing::{
    cleared_by_umask, denotes, hardlink_warning, is_hardlinked, kept_message, landing_mode,
    resolve_target, temporary_name, Action, Ending, Identity, Landing, Opened, Target,
    CREATED_MODE, PRIVATE_MODE,
};

/// One file: what it holds, its mode, and which inode it is.
#[derive(Clone, Debug, PartialEq)]
struct Stored {
    content: Vec<u8>,
    mode: u32,
    inode: u64,
}

/// A directory that holds the destination, and while a write runs its temporary.
struct Directory {
    destination: Option<Stored>,
    temporary: Option<Stored>,
    /// The mode the temporary had while the content was being written.
    seen: Option<u32>,
}

const UMASK: u32 = 0o027;

impl Directory {
    fn holding(content: Option<&[u8]>, mode: u32) -> Self {
        Directory {
            destination: content.map(|content| Stored {
                content: content.to_vec(),
                mode,
                inode: 1,
            }),
            temporary: None,
            seen: None,
        }
    }

    /// Perform one step, which fails where `fails` says so.
    fn perform(&mut self, action: Action, content: &[u8], fails: bool) -> bool {
        match action {
            Action::WriteThrough => {
                let destination = self.destination.as_mut().unwrap();
                destination.content = content.to_vec();
            }
            Action::CreateTemporary => {
                if fails {
                    return false;
                }
                self.temporary = Some(Stored {
                    content: Vec::new(),
                    mode: PRIVATE_MODE,
                    inode: 2,
                });
            }
            Action::WriteTemporary => {
                let temporary = self.temporary.as_mut().unwrap();
                let written = if fails { content.len() / 2 } else { content.len() };
                temporary.content.extend_from_slice(&content[..written]);
                self.seen = Some(temporary.mode);
            }
            Action::Permit { mode } => {
                let created = CREATED_MODE & !UMASK;
                let cleared = cleared_by_umask(Some(created));
                self.temporary.as_mut().unwrap().mode = landing_mode(mode, cleared);
            }
            Action::SyncTemporary => {}
            Action::Rename => {
                if fails {
                    return false;
                }
                self.destination = self.temporary.take();
            }
            Action::CopyBack => {
                let copy = self.temporary.as_ref().unwrap().content.clone();
                let destination = self.destination.as_mut().unwrap();
                destination.content = if fails { Vec::new() } else { copy };
            }
            Action::RemoveTemporary => self.temporary = None,
            Action::Finish(_) => unreachable!(),
        }
        !fails
    }

    /// Drive a write to its end, the step for which `fails` holds failing.
    fn write(&mut self, target: Target, content: &[u8], fails: fn(Action) -> bool) -> Ending {
        let mut landing = Landing::new(target);
        loop {
            let action = landing.next();
            if let Action::Finish(ending) = action {
                return ending;
            }
            let succeeded = self.perform(action, content, fails(action));
            landing.report(succeeded);
        }
    }
}

fn nothing_fails(_: Action) -> bool {
    false
}

fn writing_fails(action: Action) -> bool {
    action == Action::WriteTemporary
}

fn plain(mode: u32) -> Target {
    Target::Replaceable { mode, links: 1 }
}

#[test]
fn rewrites_the_input_through_a_temporary_file() {
    let mut directory = Directory::holding(Some(b"b\na\n"), 0o644);
    let ending = directory.write(plain(0o644), b"a\nb\n", nothing_fails);
    assert_eq!(ending, Ending::Landed);
    assert_eq!(directory.destination.unwrap().content, b"a\nb\n");
    assert_eq!(directory.temporary, None);
}

#[test]
fn swaps_by_rename_but_keeps_a_hardlinked_inode() {
    // Unlinked: the swap is a rename, so the name gets a new inode and the replacement is atomic.
    let mut directory = Directory::holding(Some(b"b\na\n"), 0o644);
    directory.write(plain(0o644), b"a\nb\n", nothing_fails);
    assert_ne!(directory.destination.unwrap().inode, 1);

    // Hardlinked: renaming would strand the other name on the old content, so the inode is
    // rewritten instead and both names see the result.
    let linked = Target::Replaceable {
        mode: 0o644,
        links: 2,
    };
    assert!(is_hardlinked(linked));
    assert!(!is_hardlinked(plain(0o644)));
    assert!(!is_hardlinked(Target::Fresh));
    let mut directory = Directory::holding(Some(b"b\na\n"), 0o644);
    let ending = directory.write(linked, b"a\nb\n", nothing_fails);
    assert_eq!(ending, Ending::Landed);
    let destination = directory.destination.unwrap();
    assert_eq!(destination.inode, 1);
    assert_eq!(destination.content, b"a\nb\n");
    assert_eq!(directory.temporary, None);
}

#[test]
fn leaves_the_input_untouched_when_the_rewrite_fails() {
    let mut directory = Directory::holding(Some(b"original\n"), 0o644);
    let ending = directory.write(plain(0o644), b"partial\n", writing_fails);
    assert_eq!(ending, Ending::Failed);
    assert_eq!(directory.destination.unwrap().content, b"original\n");
    assert_eq!(directory.temporary, None);
}

#[test]
fn creates_an_output_file_through_a_temporary() {
    let mut directory = Directory::holding(None, 0);
    let ending = directory.write(Target::Fresh, b"written\n", nothing_fails);
    assert_eq!(ending, Ending::Landed);
    assert_eq!(directory.destination.unwrap().content, b"written\n");
    // The temporary is gone, so the directory holds only what was asked for.
    assert_eq!(directory.temporary, None);
}

#[test]
fn keeps_the_previous_output_when_the_write_fails() {
    let steps: [fn(Action) -> bool; 4] = [
        |action| action == Action::CreateTemporary,
        |action| action == Action::WriteTemporary,
        |action| action == Action::SyncTemporary,
        |action| action == Action::Rename,
    ];
    for fails in steps {
        let mut directory = Directory::holding(Some(b"previous\n"), 0o644);
        let ending = directory.write(plain(0o644), b"partial\n", fails);
        assert_eq!(ending, Ending::Failed);
        assert_eq!(directory.destination.unwrap().content, b"previous\n");
        assert_eq!(directory.temporary, None);
    }
}

#[test]
fn keeps_the_only_whole_copy_when_copying_back_fails() {
    let linked = Target::Replaceable {
        mode: 0o644,
        links: 2,
    };
    let mut directory = Directory::holding(Some(b"previous\n"), 0o644);
    let ending = directory.write(linked, b"result\n", |action| action == Action::CopyBack);
    assert_eq!(ending, Ending::Kept);
    assert_eq!(directory.temporary.unwrap().content, b"result\n");
    assert_eq!(
        kept_message("disk full", "/tmp/.sz.1.tmp"),
        "disk full; the rewritten content is in /tmp/.sz.1.tmp"
    );
}

#[test]
fn preserves_the_permissions_of_an_existing_output_file() {
    let mut directory = Directory::holding(Some(b"previous\n"), 0o640);
    directory.write(plain(0o640), b"written\n", nothing_fails);
    assert_eq!(directory.destination.unwrap().mode, 0o640);
}

#[test]
fn keeps_a_temporary_private_while_it_is_incomplete() {
    let mut directory = Directory::holding(None, 0);
    directory.write(Target::Fresh, b"half a secret", nothing_fails);
    assert_eq!(
        directory.seen,
        Some(0o600),
        "the temporary was readable before it was finished"
    );
}

#[test]
fn leaves_a_fresh_output_file_to_the_umask() {
    let mut directory = Directory::holding(None, 0);
    directory.write(Target::Fresh, b"written\n", nothing_fails);
    assert_eq!(directory.destination.unwrap().mode, CREATED_MODE & !UMASK);
    // A umask that could not be asked stands for the common one.
    assert_eq!(landing_mode(None, cleared_by_umask(None)), 0o644);
}

#[test]
fn writes_through_a_name_that_does_not_denote_what_it_opens() {
    let opened = Identity {
        device: 1,
        inode: 7,
    };
    let other = Identity {
        device: 1,
        inode: 8,
    };
    assert!(denotes(opened, opened));
    assert!(!denotes(other, opened));
    let found = |named: Option<Identity>, is_file: bool| {
        resolve_target(&Opened {
            is_file,
            mode: 0o644,
            links: 1,
            identity: opened,
            named,
        })
    };
    assert_eq!(found(Some(opened), true), plain(0o644));
    assert_eq!(found(Some(other), true), Target::Direct);
    assert_eq!(found(None, true), Target::Direct);
    assert_eq!(found(Some(opened), false), Target::Direct);
}

#[test]
fn writes_straight_through_a_target_that_is_not_a_regular_file() {
    let mut directory = Directory::holding(Some(b""), 0o666);
    let ending = directory.write(Target::Direct, b"discarded\n", nothing_fails);
    assert_eq!(ending, Ending::Landed);
    assert_eq!(directory.seen, None, "no temporary was ever written");
}

#[test]
fn names_a_temporary_apart_from_others() {
    assert_eq!(
        temporary_name(4242, 0xdead_beef, 1),
        ".sz.4242.deadbeef.0001.tmp"
    );
    assert_eq!(temporary_name(1, 0xa, 0xff), ".sz.1.0000000a.00ff.tmp");
}

#[test]
fn warns_about_a_file_with_other_names() {
    let warning = hardlink_warning("sz-replace", "notes.md");
    assert!(warning.starts_with("sz-replace: warning: notes.md has other hardlinks"));
}
