//! The start-up script: which lines of INIT.RC the shell runs.
use vstd::prelude::*;

verus! {

/// `line` without one trailing carriage return.
pub open spec fn trim_cr(line: Seq<u8>) -> Seq<u8> {
    if line.len() > 0 && line.last() == 0x0D {
        line.drop_last()
    } else {
        line
    }
}

/// The line is a command: not empty and not a `#` comment.
pub open spec fn is_command(line: Seq<u8>) -> bool {
    line.len() > 0 && line[0] != 0x23
}

/// The commands of `buf` from the line that starts at `start`, scanning
/// from `i`: a line ends at a newline or a NUL, which also ends the script;
/// a line that runs to the end of the buffer without either is not run.
pub open spec fn rc_scan(buf: Seq<u8>, start: int, i: int) -> Seq<Seq<u8>>
    decreases buf.len() - i,
{
    if i < 0 || i >= buf.len() {
        Seq::empty()
    } else if buf[i] == 0x0A || buf[i] == 0 {
        let line = trim_cr(buf.subrange(start, i));
        let here = if is_command(line) {
            seq![line]
        } else {
            Seq::empty()
        };
        if buf[i] == 0 {
            here
        } else {
            here + rc_scan(buf, i + 1, i + 1)
        }
    } else {
        rc_scan(buf, start, i + 1)
    }
}

/// The commands of the start-up script `buf`, in order: its lines, each
/// without a trailing carriage return, that are neither empty nor comments.
pub fn rc_commands(buf: &[u8]) -> (r: Vec<Vec<u8>>)
    ensures
        r@.len() == rc_scan(buf@, 0, 0).len(),
        forall|k: int| 0 <= k < r@.len() ==> #[trigger] r@[k]@ == rc_scan(buf@, 0, 0)[k],
{
    let mut out: Vec<Vec<u8>> = Vec::new();
    let ghost mut lines: Seq<Seq<u8>> = Seq::empty();
    let mut start: usize = 0;
    let mut i: usize = 0;
    while i < buf.len()
        invariant_except_break
            lines + rc_scan(buf@, start as int, i as int) == rc_scan(buf@, 0, 0),
        invariant
            start <= i <= buf.len(),
            out@.len() == lines.len(),
            forall|k: int| 0 <= k < out@.len() ==> #[trigger] out@[k]@ == lines[k],
        ensures
            out@.len() == lines.len(),
            forall|k: int| 0 <= k < out@.len() ==> #[trigger] out@[k]@ == lines[k],
            lines == rc_scan(buf@, 0, 0),
        decreases buf.len() - i,
    {
        let ch = buf[i];
        if ch == 0x0A || ch == 0 {
            let mut end = i;
            if end > start && buf[end - 1] == 0x0D {
                end = end - 1;
            }
            let ghost line = trim_cr(buf@.subrange(start as int, i as int));
            assert(buf@.subrange(start as int, end as int) =~= line);
            let ghost here = if is_command(line) {
                seq![line]
            } else {
                Seq::<Seq<u8>>::empty()
            };
            let ghost old_lines = lines;
            if end > start && buf[start] != 0x23 {
                let mut cmd: Vec<u8> = Vec::new();
                let mut j = start;
                while j < end
                    invariant
                        start <= j <= end,
                        end <= buf.len(),
                        cmd@ == buf@.subrange(start as int, j as int),
                    decreases end - j,
                {
                    cmd.push(buf[j]);
                    j = j + 1;
                    assert(cmd@ =~= buf@.subrange(start as int, j as int));
                }
                out.push(cmd);
                proof {
                    lines = lines.push(line);
                }
            }
            proof {
                if is_command(line) {
                    assert(end > start && buf@[start as int] != 0x23);
                }
                assert(lines =~= old_lines + here);
            }
            if ch == 0 {
                proof {
                    assert(rc_scan(buf@, start as int, i as int) == here);
                    assert(lines =~= old_lines + rc_scan(buf@, start as int, i as int));
                }
                break;
            }
            proof {
                let rest = rc_scan(buf@, i + 1, i + 1);
                assert(rc_scan(buf@, start as int, i as int) == here + rest);
                assert(lines + rest =~= old_lines + (here + rest));
            }
            start = i + 1;
        }
        i = i + 1;
    }
    out
}

} // verus!
