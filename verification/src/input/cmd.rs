//! The shell: the command table, argument splitting and parsing, and the
//! path arithmetic of `cd`, `dir` and `read`.
use vstd::prelude::*;
use crate::fs::block::BlockDevice;
use crate::fs::fat12::fs::{Fs, WriteStatus};
use crate::input::keyboard::{first_index, position};
use crate::debug::{dec_str, u64_to_dec_str};

verus! {

/// Splits `input` at its first space into the command and the rest after
/// that space; without a space all of it is the command.
pub open spec fn spec_split_cmd(input: Seq<u8>) -> (Seq<u8>, Seq<u8>) {
    let p = first_index(input, 0x20);
    if p < input.len() {
        (input.take(p), input.skip(p + 1))
    } else {
        (input, Seq::empty())
    }
}

/// Splits `input` at its first space into the command and its arguments.
pub fn split_cmd(input: &[u8]) -> (r: (&[u8], &[u8]))
    ensures
        r.0@ == spec_split_cmd(input@).0,
        r.1@ == spec_split_cmd(input@).1,
{
    let pos = position(input, 0x20);
    if pos < input.len() {
        let cmd = &input[0..pos];
        let args = &input[pos + 1..input.len()];
        assert(args@ =~= input@.skip(pos + 1));
        (cmd, args)
    } else {
        (input, &[])
    }
}

/// Every byte of `s` is a decimal digit.
pub open spec fn all_digits(s: Seq<u8>) -> bool {
    forall|i: int| 0 <= i < s.len() ==> 0x30 <= #[trigger] s[i] <= 0x39
}

/// The number written in decimal by the digits `s`.
pub open spec fn dec_value(s: Seq<u8>) -> nat
    decreases s.len(),
{
    if s.len() == 0 {
        0
    } else {
        dec_value(s.drop_last()) * 10 + (s.last() - 0x30) as nat
    }
}

proof fn lemma_dec_value_grows(s: Seq<u8>, i: int)
    requires
        0 <= i <= s.len(),
        all_digits(s),
    ensures
        dec_value(s.take(i)) <= dec_value(s),
    decreases s.len() - i,
{
    if i < s.len() {
        lemma_dec_value_grows(s, i + 1);
        assert(s.take(i + 1).drop_last() =~= s.take(i));
    } else {
        assert(s.take(i) =~= s);
    }
}

/// The decimal number `bytes`; None when a byte is not a digit or the
/// number does not fit in a u64. The empty text is 0.
pub fn parse_u64(bytes: &[u8]) -> (r: Option<u64>)
    ensures
        r == if all_digits(bytes@) && dec_value(bytes@) <= u64::MAX {
            Some(dec_value(bytes@) as u64)
        } else {
            None::<u64>
        },
{
    let mut value: u64 = 0;
    let mut i: usize = 0;
    while i < bytes.len()
        invariant
            i <= bytes@.len(),
            all_digits(bytes@.take(i as int)),
            value == dec_value(bytes@.take(i as int)),
        decreases bytes@.len() - i,
    {
        let b = bytes[i];
        assert(bytes@.take(i + 1).drop_last() =~= bytes@.take(i as int));
        if b < 0x30 || b > 0x39 {
            assert(!all_digits(bytes@)) by {
                assert(bytes@[i as int] == b);
            }
            return None;
        }
        let d = (b - 0x30) as u64;
        match value.checked_mul(10) {
            None => {
                proof {
                    if all_digits(bytes@) {
                        lemma_dec_value_grows(bytes@, i + 1);
                    }
                }
                return None;
            },
            Some(v10) => match v10.checked_add(d) {
                None => {
                    proof {
                        if all_digits(bytes@) {
                            lemma_dec_value_grows(bytes@, i + 1);
                        }
                    }
                    return None;
                },
                Some(v) => {
                    value = v;
                },
            },
        }
        i = i + 1;
        assert(all_digits(bytes@.take(i as int)));
    }
    assert(bytes@.take(i as int) =~= bytes@);
    Some(value)
}

/// ASCII upper case of a byte.
pub open spec fn upper(c: u8) -> u8 {
    if 0x61 <= c <= 0x7a { (c - 0x20) as u8 } else { c }
}

/// Upper-cases a FAT 8.3 name in place.
pub fn to_uppercase_ascii(input: &mut [u8; 11])
    ensures
        forall|i: int| 0 <= i < 11 ==> final(input)@[i] == upper(old(input)@[i]),
{
    let mut i: usize = 0;
    while i < 11
        invariant
            i <= 11,
            input@.len() == 11,
            forall|j: int| 0 <= j < i ==> input@[j] == upper(old(input)@[j]),
            forall|j: int| i <= j < 11 ==> input@[j] == old(input)@[j],
        decreases 11 - i,
    {
        let b = input[i];
        if b >= 0x61 && b <= 0x7a {
            input[i] = b - 32;
        }
        i = i + 1;
    }
}

/// The shell commands.
#[derive(Clone, Copy, PartialEq, Eq, Structural)]
pub enum CommandKind {
    Beep,
    Bg,
    Cd,
    Cls,
    Debug,
    Dir,
    Echo,
    Fg,
    Fsck,
    Help,
    Hlt,
    Kill,
    Mkdir,
    Mount,
    Mv,
    Read,
    Rm,
    Run,
    Time,
    Ts,
    Uptime,
    Ver,
}

/// The name each command is typed as.
pub open spec fn command_name(k: CommandKind) -> Seq<u8> {
    match k {
        CommandKind::Beep => seq![0x62u8, 0x65, 0x65, 0x70],
        CommandKind::Bg => seq![0x62u8, 0x67],
        CommandKind::Cd => seq![0x63u8, 0x64],
        CommandKind::Cls => seq![0x63u8, 0x6c, 0x73],
        CommandKind::Debug => seq![0x64u8, 0x65, 0x62, 0x75, 0x67],
        CommandKind::Dir => seq![0x64u8, 0x69, 0x72],
        CommandKind::Echo => seq![0x65u8, 0x63, 0x68, 0x6f],
        CommandKind::Fg => seq![0x66u8, 0x67],
        CommandKind::Fsck => seq![0x66u8, 0x73, 0x63, 0x6b],
        CommandKind::Help => seq![0x68u8, 0x65, 0x6c, 0x70],
        CommandKind::Hlt => seq![0x68u8, 0x6c, 0x74],
        CommandKind::Kill => seq![0x6bu8, 0x69, 0x6c, 0x6c],
        CommandKind::Mkdir => seq![0x6du8, 0x6b, 0x64, 0x69, 0x72],
        CommandKind::Mount => seq![0x6du8, 0x6f, 0x75, 0x6e, 0x74],
        CommandKind::Mv => seq![0x6du8, 0x76],
        CommandKind::Read => seq![0x72u8, 0x65, 0x61, 0x64],
        CommandKind::Rm => seq![0x72u8, 0x6d],
        CommandKind::Run => seq![0x72u8, 0x75, 0x6e],
        CommandKind::Time => seq![0x74u8, 0x69, 0x6d, 0x65],
        CommandKind::Ts => seq![0x74u8, 0x73],
        CommandKind::Uptime => seq![0x75u8, 0x70, 0x74, 0x69, 0x6d, 0x65],
        CommandKind::Ver => seq![0x76u8, 0x65, 0x72],
    }
}

/// The shell's commands and the names they are typed as: beep, bg, cd,
/// cls, debug, dir, echo, fg, fsck, help, hlt, kill, mkdir, mount, mv,
/// read, rm, run, time, ts, uptime, ver; `find_cmd` finds each under its
/// name, and no two commands share one.
pub proof fn lemma_command_names()
    ensures
        command_name(CommandKind::Beep) == "beep"@.map_values(|c: char| c as u8),
        command_name(CommandKind::Bg) == "bg"@.map_values(|c: char| c as u8),
        command_name(CommandKind::Cd) == "cd"@.map_values(|c: char| c as u8),
        command_name(CommandKind::Cls) == "cls"@.map_values(|c: char| c as u8),
        command_name(CommandKind::Debug) == "debug"@.map_values(|c: char| c as u8),
        command_name(CommandKind::Dir) == "dir"@.map_values(|c: char| c as u8),
        command_name(CommandKind::Echo) == "echo"@.map_values(|c: char| c as u8),
        command_name(CommandKind::Fg) == "fg"@.map_values(|c: char| c as u8),
        command_name(CommandKind::Fsck) == "fsck"@.map_values(|c: char| c as u8),
        command_name(CommandKind::Help) == "help"@.map_values(|c: char| c as u8),
        command_name(CommandKind::Hlt) == "hlt"@.map_values(|c: char| c as u8),
        command_name(CommandKind::Kill) == "kill"@.map_values(|c: char| c as u8),
        command_name(CommandKind::Mkdir) == "mkdir"@.map_values(|c: char| c as u8),
        command_name(CommandKind::Mount) == "mount"@.map_values(|c: char| c as u8),
        command_name(CommandKind::Mv) == "mv"@.map_values(|c: char| c as u8),
        command_name(CommandKind::Read) == "read"@.map_values(|c: char| c as u8),
        command_name(CommandKind::Rm) == "rm"@.map_values(|c: char| c as u8),
        command_name(CommandKind::Run) == "run"@.map_values(|c: char| c as u8),
        command_name(CommandKind::Time) == "time"@.map_values(|c: char| c as u8),
        command_name(CommandKind::Ts) == "ts"@.map_values(|c: char| c as u8),
        command_name(CommandKind::Uptime) == "uptime"@.map_values(|c: char| c as u8),
        command_name(CommandKind::Ver) == "ver"@.map_values(|c: char| c as u8),
        forall|a: CommandKind, b: CommandKind| command_name(a) == command_name(b) ==> a == b,
{
    reveal_strlit("beep");
    reveal_strlit("bg");
    reveal_strlit("cd");
    reveal_strlit("cls");
    reveal_strlit("debug");
    reveal_strlit("dir");
    reveal_strlit("echo");
    reveal_strlit("fg");
    reveal_strlit("fsck");
    reveal_strlit("help");
    reveal_strlit("hlt");
    reveal_strlit("kill");
    reveal_strlit("mkdir");
    reveal_strlit("mount");
    reveal_strlit("mv");
    reveal_strlit("read");
    reveal_strlit("rm");
    reveal_strlit("run");
    reveal_strlit("time");
    reveal_strlit("ts");
    reveal_strlit("uptime");
    reveal_strlit("ver");
    assert forall|a: CommandKind, b: CommandKind| command_name(a) == command_name(b) implies a == b by {
        if a != b {
            assert(command_name(a) != command_name(b)) by {
                let na = command_name(a);
                let nb = command_name(b);
                if na.len() == nb.len() {
                    assert(na[0] != nb[0] || na[1] != nb[1] || (na.len() > 2 && (na[2] != nb[2] || (na.len() > 3 && (na[3] != nb[3] || (na.len() > 4 && na[4] != nb[4]))))));
                }
            }
        }
    }
}

/// The position of each command in the command table.
pub open spec fn kind_index(k: CommandKind) -> int {
    match k {
        CommandKind::Beep => 0,
        CommandKind::Bg => 1,
        CommandKind::Cd => 2,
        CommandKind::Cls => 3,
        CommandKind::Debug => 4,
        CommandKind::Dir => 5,
        CommandKind::Echo => 6,
        CommandKind::Fg => 7,
        CommandKind::Fsck => 8,
        CommandKind::Help => 9,
        CommandKind::Hlt => 10,
        CommandKind::Kill => 11,
        CommandKind::Mkdir => 12,
        CommandKind::Mount => 13,
        CommandKind::Mv => 14,
        CommandKind::Read => 15,
        CommandKind::Rm => 16,
        CommandKind::Run => 17,
        CommandKind::Time => 18,
        CommandKind::Ts => 19,
        CommandKind::Uptime => 20,
        CommandKind::Ver => 21,
    }
}

fn bytes_eq(a: &[u8], b: &[u8]) -> (r: bool)
    ensures
        r == (a@ == b@),
{
    if a.len() != b.len() {
        return false;
    }
    let mut i: usize = 0;
    while i < a.len()
        invariant
            a@.len() == b@.len(),
            i <= a@.len(),
            forall|j: int| 0 <= j < i ==> a@[j] == b@[j],
        decreases a@.len() - i,
    {
        if a[i] != b[i] {
            return false;
        }
        i = i + 1;
    }
    assert(a@ =~= b@);
    true
}

/// The command typed as `name`.
pub fn find_cmd(name: &[u8]) -> (r: Option<CommandKind>)
    ensures
        match r {
            Some(k) => command_name(k) == name@,
            None => forall|k: CommandKind| command_name(k) != name@,
        },
{
    let names: [([u8; 6], usize, CommandKind); 22] = [
        ([0x62, 0x65, 0x65, 0x70, 0, 0], 4, CommandKind::Beep),
        ([0x62, 0x67, 0, 0, 0, 0], 2, CommandKind::Bg),
        ([0x63, 0x64, 0, 0, 0, 0], 2, CommandKind::Cd),
        ([0x63, 0x6c, 0x73, 0, 0, 0], 3, CommandKind::Cls),
        ([0x64, 0x65, 0x62, 0x75, 0x67, 0], 5, CommandKind::Debug),
        ([0x64, 0x69, 0x72, 0, 0, 0], 3, CommandKind::Dir),
        ([0x65, 0x63, 0x68, 0x6f, 0, 0], 4, CommandKind::Echo),
        ([0x66, 0x67, 0, 0, 0, 0], 2, CommandKind::Fg),
        ([0x66, 0x73, 0x63, 0x6b, 0, 0], 4, CommandKind::Fsck),
        ([0x68, 0x65, 0x6c, 0x70, 0, 0], 4, CommandKind::Help),
        ([0x68, 0x6c, 0x74, 0, 0, 0], 3, CommandKind::Hlt),
        ([0x6b, 0x69, 0x6c, 0x6c, 0, 0], 4, CommandKind::Kill),
        ([0x6d, 0x6b, 0x64, 0x69, 0x72, 0], 5, CommandKind::Mkdir),
        ([0x6d, 0x6f, 0x75, 0x6e, 0x74, 0], 5, CommandKind::Mount),
        ([0x6d, 0x76, 0, 0, 0, 0], 2, CommandKind::Mv),
        ([0x72, 0x65, 0x61, 0x64, 0, 0], 4, CommandKind::Read),
        ([0x72, 0x6d, 0, 0, 0, 0], 2, CommandKind::Rm),
        ([0x72, 0x75, 0x6e, 0, 0, 0], 3, CommandKind::Run),
        ([0x74, 0x69, 0x6d, 0x65, 0, 0], 4, CommandKind::Time),
        ([0x74, 0x73, 0, 0, 0, 0], 2, CommandKind::Ts),
        ([0x75, 0x70, 0x74, 0x69, 0x6d, 0x65], 6, CommandKind::Uptime),
        ([0x76, 0x65, 0x72, 0, 0, 0], 3, CommandKind::Ver),
    ];
    let mut i: usize = 0;
    while i < 22
        invariant
            i <= 22,
            forall|j: int| 0 <= j < 22 ==> (#[trigger] names@[j]).1 <= 6
                && names@[j].0@.take(names@[j].1 as int) == command_name(names@[j].2),
            forall|k: CommandKind| 0 <= #[trigger] kind_index(k) < 22 && names@[kind_index(k)].2 == k,
            forall|j: int| 0 <= j < i ==> command_name(#[trigger] names@[j].2) != name@,
        decreases 22 - i,
    {
        let (text, len, kind) = names[i];
        let candidate = &text.as_slice()[0..len];
        if bytes_eq(candidate, name) {
            return Some(kind);
        }
        i = i + 1;
    }
    proof {
        assert forall|k: CommandKind| command_name(k) != name@ by {
            assert(command_name(names@[kind_index(k)].2) != name@);
        }
    }
    None
}

/// `base` + "/" + `name`, where the base of the root path "/" is empty,
/// cut to `cap` bytes.
pub open spec fn joined_path(cur: Seq<u8>, name: Seq<u8>, cap: nat) -> Seq<u8> {
    let base = if cur == seq![0x2fu8] { Seq::<u8>::empty() } else { cur };
    let full = base + seq![0x2fu8] + name;
    if full.len() <= cap { full } else { full.take(cap as int) }
}

/// The path of `name` inside the directory `cur_path`, cut to `cap` bytes.
pub fn join_path(cur_path: &[u8], name: &[u8], cap: usize) -> (r: Vec<u8>)
    requires
        cur_path@.len() <= cap,
    ensures
        r@ == joined_path(cur_path@, name@, cap as nat),
{
    let is_root = cur_path.len() == 1 && cur_path[0] == 0x2f;
    assert(is_root == (cur_path@ == seq![0x2fu8])) by {
        if cur_path@.len() == 1 && cur_path@[0] == 0x2f {
            assert(cur_path@ =~= seq![0x2fu8]);
        }
    }
    let base: &[u8] = if is_root { &[] } else { cur_path };
    let ghost full = base@ + seq![0x2fu8] + name@;
    let mut out: Vec<u8> = Vec::new();
    let mut i: usize = 0;
    while i < base.len()
        invariant
            base@.len() <= cap,
            i <= base@.len(),
            out@ == base@.take(i as int),
        decreases base@.len() - i,
    {
        out.push(base[i]);
        i = i + 1;
        assert(out@ =~= base@.take(i as int));
    }
    if out.len() < cap {
        out.push(0x2f);
    }
    let mut k: usize = 0;
    while k < name.len()
        invariant
            base@.len() <= cap,
            full == base@ + seq![0x2fu8] + name@,
            k <= name@.len(),
            out@ == (if base@.len() + 1 + k <= cap {
                full.take(base@.len() + 1 + k)
            } else {
                full.take(cap as int)
            }),
        decreases name@.len() - k,
    {
        if out.len() < cap {
            out.push(name[k]);
        }
        k = k + 1;
        proof {
            if base@.len() + 1 + k <= cap {
                assert(out@ =~= full.take(base@.len() + 1 + k));
            } else {
                assert(out@ =~= full.take(cap as int));
            }
        }
    }
    assert(full.take(full.len() as int) =~= full);
    out
}

/// `path` without its last component: everything before its last '/', or
/// "/" when that '/' is the first byte or there is none.
pub open spec fn parent_of(path: Seq<u8>) -> Seq<u8> {
    let last = last_slash(path);
    if last <= 0 { seq![0x2fu8] } else { path.take(last) }
}

/// Index of the last '/' in `path`, or -1.
pub open spec fn last_slash(path: Seq<u8>) -> int
    decreases path.len(),
{
    if path.len() == 0 {
        -1
    } else if path.last() == 0x2f {
        path.len() - 1
    } else {
        last_slash(path.drop_last())
    }
}

/// The path `cd ..` moves to from `cur_path`.
pub fn parent_path(cur_path: &[u8]) -> (r: Vec<u8>)
    ensures
        r@ == parent_of(cur_path@),
{
    let mut i: usize = cur_path.len();
    assert(cur_path@.take(i as int) =~= cur_path@);
    while i > 0 && cur_path[i - 1] != 0x2f
        invariant
            i <= cur_path@.len(),
            last_slash(cur_path@) == last_slash(cur_path@.take(i as int)),
        decreases i,
    {
        assert(cur_path@.take(i as int).drop_last() =~= cur_path@.take(i - 1));
        i = i - 1;
    }
    proof {
        if i > 0 {
            assert(cur_path@.take(i as int).last() == 0x2f);
        }
    }
    let mut out: Vec<u8> = Vec::new();
    if i <= 1 {
        out.push(0x2f);
        assert(out@ =~= seq![0x2fu8]);
    } else {
        let mut k: usize = 0;
        while k < i - 1
            invariant
                1 < i <= cur_path@.len(),
                k <= i - 1,
                out@ == cur_path@.take(k as int),
            decreases i - 1 - k,
        {
            out.push(cur_path[k]);
            k = k + 1;
            assert(out@ =~= cur_path@.take(k as int));
        }
    }
    out
}

/// Splits an uptime in seconds into hours, minutes and seconds.
pub fn uptime_parts(total: u64) -> (r: (u64, u64, u64))
    ensures
        r.0 == total / 3600,
        r.1 == (total % 3600) / 60,
        r.2 == total % 60,
        r.0 * 3600 + r.1 * 60 + r.2 == total,
{
    let h = total / 3600;
    let m = (total % 3600) / 60;
    let s = total % 60;
    assert(h * 3600 + m * 60 + s == total) by (nonlinear_arith)
        requires
            h == total / 3600,
            m == (total % 3600) / 60,
            s == total % 60,
    {
        assert(total == (total / 3600) * 3600 + total % 3600);
        assert(total % 3600 == ((total % 3600) / 60) * 60 + (total % 3600) % 60);
        assert((total % 3600) % 60 == total % 60);
    }
    (h, m, s)
}

/// What `write <filename> <content>` did.
pub enum WriteCommand {
    /// The file name or the content is missing.
    Usage,
    /// The file name has more than 8 bytes.
    NameTooLong,
    /// The file was written, with this status.
    Done(WriteStatus),
}

/// The 8.3 name `write` stores a file under: the typed name upper-cased,
/// padded with spaces, extension "TXT".
pub open spec fn txt_name(filename: Seq<u8>) -> Seq<u8> {
    Seq::new(11, |i: int|
        if i < filename.len() {
            upper(filename[i])
        } else if i < 8 {
            0x20u8
        } else if i == 8 {
            0x54u8
        } else if i == 9 {
            0x58u8
        } else {
            0x54u8
        })
}

/// Builds the name `write` stores `filename` under.
pub fn txt_file_name(filename: &[u8]) -> (r: [u8; 11])
    requires
        filename@.len() <= 8,
    ensures
        r@ == txt_name(filename@),
{
    let mut name = [0x20u8; 11];
    let mut i: usize = 0;
    while i < filename.len()
        invariant
            filename@.len() <= 8,
            i <= filename@.len(),
            name@.len() == 11,
            forall|j: int| 0 <= j < i ==> name@[j] == filename@[j],
            forall|j: int| i <= j < 11 ==> name@[j] == 0x20,
        decreases filename@.len() - i,
    {
        name[i] = filename[i];
        i = i + 1;
    }
    name[8] = 0x54;
    name[9] = 0x58;
    name[10] = 0x54;
    to_uppercase_ascii(&mut name);
    assert(name@ =~= txt_name(filename@));
    name
}

/// `write <filename> <content>`: stores the content as FILENAME.TXT in the
/// directory `cwd`.
pub fn cmd_write<D: BlockDevice>(fs: &mut Fs<D>, cwd: u16, args: &[u8]) -> (r: WriteCommand)
    requires
        old(fs).wf(),
        old(fs).write_ready(cwd),
    ensures
        final(fs).wf(),
        ({
            let (filename, content) = spec_split_cmd(args@);
            match r {
                WriteCommand::Usage => (filename.len() == 0 || content.len() == 0) && *final(fs) == *old(fs),
                WriteCommand::NameTooLong => filename.len() > 8 && content.len() > 0 && *final(fs) == *old(fs),
                WriteCommand::Done(st) => 0 < filename.len() <= 8 && content.len() > 0
                    && final(fs).wrote(old(fs), cwd, txt_name(filename), content, st),
            }
        }),
{
    let (filename, content) = split_cmd(args);
    if filename.len() == 0 || content.len() == 0 {
        return WriteCommand::Usage;
    }
    if filename.len() > 8 {
        return WriteCommand::NameTooLong;
    }
    let name = txt_file_name(filename);
    WriteCommand::Done(fs.write_file(cwd, &name, content))
}

/// An executable name typed to `run`, `bg` or `fg` (before its first NUL or
/// space) is usable: not empty and at most `max` bytes.
pub fn program_name(args: &[u8], max: usize) -> (r: Option<&[u8]>)
    ensures
        match r {
            Some(n) => n@ == crate::input::keyboard::spec_split_cmd(args@).0
                && 0 < n@.len() <= max,
            None => args@.len() == 0 || crate::input::keyboard::spec_split_cmd(args@).0.len() == 0
                || crate::input::keyboard::spec_split_cmd(args@).0.len() > max,
        },
{
    if args.len() == 0 {
        return None;
    }
    let (name, _) = crate::input::keyboard::split_cmd(args);
    if name.len() == 0 || name.len() > max {
        None
    } else {
        Some(name)
    }
}

/// The decimal text of `n` with a leading zero below 10.
pub open spec fn two_digits(n: nat) -> Seq<u8> {
    if n < 10 {
        seq![0x30u8] + dec_str(n)
    } else {
        dec_str(n)
    }
}

/// "RTC Time: ".
pub open spec fn rtc_time_label() -> Seq<u8> {
    seq![0x52u8, 0x54, 0x43, 0x20, 0x54, 0x69, 0x6d, 0x65, 0x3a, 0x20]
}

/// "RTC Date: ".
pub open spec fn rtc_date_label() -> Seq<u8> {
    seq![0x52u8, 0x54, 0x43, 0x20, 0x44, 0x61, 0x74, 0x65, 0x3a, 0x20]
}

/// What `time` prints for a clock reading: "RTC Time: h:mm:ss" and
/// "RTC Date: dd/mm/year", each on a line of its own.
pub open spec fn time_report_text(year: nat, month: nat, day: nat, hour: nat, minute: nat, second: nat) -> Seq<u8> {
    rtc_time_label() + dec_str(hour) + seq![0x3au8] + two_digits(minute) + seq![0x3au8]
        + two_digits(second) + seq![0x0au8] + rtc_date_label() + two_digits(day) + seq![0x2fu8]
        + two_digits(month) + seq![0x2fu8] + dec_str(year) + seq![0x0au8]
}

/// Appends the bytes of `s` to `out`.
fn push_all(out: &mut Vec<u8>, s: &[u8])
    ensures
        final(out)@ == old(out)@ + s@,
{
    let mut i: usize = 0;
    while i < s.len()
        invariant
            i <= s@.len(),
            out@ == old(out)@ + s@.subrange(0, i as int),
        decreases s.len() - i,
    {
        out.push(s[i]);
        i = i + 1;
        assert(out@ =~= old(out)@ + s@.subrange(0, i as int));
    }
    assert(s@.subrange(0, s@.len() as int) =~= s@);
}

/// Appends the decimal text of `n`, with a leading zero below 10 when
/// `pad` is set.
fn push_number(out: &mut Vec<u8>, n: u64, pad: bool)
    ensures
        final(out)@ == old(out)@ + (if pad {
            two_digits(n as nat)
        } else {
            dec_str(n as nat)
        }),
{
    if pad && n < 10 {
        out.push(0x30);
    }
    let mut buf = [0u8; 20];
    let text = u64_to_dec_str(n, &mut buf);
    push_all(out, text);
    assert(out@ =~= old(out)@ + (if pad {
        two_digits(n as nat)
    } else {
        dec_str(n as nat)
    }));
}

/// The text `time` prints for the clock reading (year, month, day, hour,
/// minute, second).
pub fn time_report(year: u64, month: u64, day: u64, hour: u64, minute: u64, second: u64) -> (r: Vec<u8>)
    ensures
        r@ == time_report_text(
            year as nat,
            month as nat,
            day as nat,
            hour as nat,
            minute as nat,
            second as nat,
        ),
{
    let mut out: Vec<u8> = Vec::new();
    let label: [u8; 10] = [0x52, 0x54, 0x43, 0x20, 0x54, 0x69, 0x6d, 0x65, 0x3a, 0x20];
    assert(label@ =~= rtc_time_label());
    push_all(&mut out, &label);
    push_number(&mut out, hour, false);
    out.push(0x3a);
    push_number(&mut out, minute, true);
    out.push(0x3a);
    push_number(&mut out, second, true);
    out.push(0x0a);
    let label2: [u8; 10] = [0x52, 0x54, 0x43, 0x20, 0x44, 0x61, 0x74, 0x65, 0x3a, 0x20];
    assert(label2@ =~= rtc_date_label());
    push_all(&mut out, &label2);
    push_number(&mut out, day, true);
    out.push(0x2f);
    push_number(&mut out, month, true);
    out.push(0x2f);
    push_number(&mut out, year, false);
    out.push(0x0a);
    assert(out@ =~= time_report_text(
        year as nat,
        month as nat,
        day as nat,
        hour as nat,
        minute as nat,
        second as nat,
    ));
    out
}

/// The line the clock process prints: hour, minute and second, each with a
/// leading zero below 10, joined by colons.
pub fn clock_line(hour: u64, minute: u64, second: u64) -> (r: Vec<u8>)
    ensures
        r@ == two_digits(hour as nat) + seq![0x3au8] + two_digits(minute as nat) + seq![0x3au8]
            + two_digits(second as nat) + seq![0x0au8],
{
    let mut out: Vec<u8> = Vec::new();
    push_number(&mut out, hour, true);
    out.push(0x3a);
    push_number(&mut out, minute, true);
    out.push(0x3a);
    push_number(&mut out, second, true);
    out.push(0x0a);
    assert(out@ =~= two_digits(hour as nat) + seq![0x3au8] + two_digits(minute as nat) + seq![0x3au8]
        + two_digits(second as nat) + seq![0x0au8]);
    out
}

} // verus!
