use ups::device::RamDisk;
use ups::fs::FileSystem;
use ups::shell::{Terminal, HELP_TEXT};

fn volume() -> FileSystem<RamDisk> {
    let disk = RamDisk::new(400, 8, 32, 2, 100, 2, 1, 6, 0x12345678, *b"NO NAME    ").unwrap();
    let mut fs = FileSystem::new(disk).unwrap();
    fs.init_fats();
    fs.create_root_dir().unwrap();
    fs
}

fn type_line(t: &mut Terminal, line: &str) {
    for b in line.bytes() {
        t.push_char(b);
    }
}

fn run(t: &mut Terminal, fs: &mut FileSystem<RamDisk>, line: &str) -> String {
    type_line(t, line);
    t.execute_command(fs)
}

#[test]
fn push_echoes_character() {
    let mut t = Terminal::new();
    assert_eq!(t.push_char(b'l'), "l");
    assert_eq!(t.push_char(b's'), "s");
    t.pop_char();
    t.push_char(b's');
    let mut fs = volume();
    assert_eq!(t.execute_command(&mut fs), "\n* .\n* ..\n> ");
}

#[test]
fn pop_on_empty_line_is_harmless() {
    let mut t = Terminal::new();
    t.pop_char();
    t.pop_char();
    let mut fs = volume();
    assert_eq!(run(&mut t, &mut fs, "help"), format!("\n{}> ", HELP_TEXT));
}

#[test]
fn mkdir_cd_and_ls() {
    let mut t = Terminal::new();
    let mut fs = volume();
    assert_eq!(run(&mut t, &mut fs, "mkdir docs"), "\n> ");
    assert_eq!(run(&mut t, &mut fs, "touch  readme.md "), "\n> ");
    assert_eq!(run(&mut t, &mut fs, "ls"), "\n* .\n* ..\n* DOCS\n\\ * .\n\\ * ..\n* README.MD\n> ");
    assert_eq!(run(&mut t, &mut fs, "cd DOCS"), "\nChanged directory to DOCS\n> ");
    assert_eq!(t.cwd(), 3);
    assert_eq!(run(&mut t, &mut fs, "cd nowhere"), "\nDirectory 'nowhere' not found\n> ");
    assert_eq!(run(&mut t, &mut fs, "cd"), "\nUsage: cd <dirname>\n> ");
    assert_eq!(run(&mut t, &mut fs, "cd .."), "\nChanged directory to ..\n> ");
    assert_eq!(t.cwd(), 2);
}

#[test]
fn mkdir_without_name_does_nothing() {
    let mut t = Terminal::new();
    let mut fs = volume();
    assert_eq!(run(&mut t, &mut fs, "mkdir"), "\n> ");
    assert_eq!(fs.count_occupied_clusters(), 3);
}

#[test]
fn debug_toggle() {
    let mut t = Terminal::new();
    let mut fs = volume();
    assert_eq!(run(&mut t, &mut fs, "bk fs"), "\nFileSystem debugging activated\n> ");
    assert!(t.debug_fs());
    assert_eq!(run(&mut t, &mut fs, "bk fs"), "\nFileSystem debugging deactivated\n> ");
    assert!(!t.debug_fs());
    assert_eq!(run(&mut t, &mut fs, "bk help"), "\nAvailable components:\n\nfs\nFile system.\n> ");
    assert_eq!(run(&mut t, &mut fs, "bk"), "\n> ");
}

#[test]
fn clear_and_unknown() {
    let mut t = Terminal::new();
    let mut fs = volume();
    assert_eq!(run(&mut t, &mut fs, "clear"), format!("\n{}> ", "\n".repeat(50)));
    assert_eq!(run(&mut t, &mut fs, "  frob it "), "\nUnknown command:   frob it \n> ");
    assert_eq!(run(&mut t, &mut fs, "   "), "\n> ");
    assert_eq!(t.execute_command(&mut fs), "\n> ");
}

#[test]
fn invalid_utf8_line() {
    let mut t = Terminal::new();
    let mut fs = volume();
    t.push_char(0xFF);
    assert_eq!(t.execute_command(&mut fs), "\nInvalid UTF-8 input\n> ");
}

#[test]
fn long_line_is_cut() {
    let mut t = Terminal::new();
    let mut fs = volume();
    let long = "x".repeat(600);
    let out = run(&mut t, &mut fs, &long);
    assert_eq!(out, format!("\nUnknown command: {}\n> ", "x".repeat(512)));
}

#[test]
fn create_failure_is_reported() {
    let disk = RamDisk::new(40, 1, 32, 2, 1, 2, 1, 6, 7, *b"SMALL      ").unwrap();
    let mut fs = FileSystem::new(disk).unwrap();
    fs.init_fats();
    fs.create_root_dir().unwrap();
    while fs.allocate_cluster().is_ok() {}
    let mut t = Terminal::new();
    assert_eq!(run(&mut t, &mut fs, "touch a"), "\nCould not create a\n> ");
}
