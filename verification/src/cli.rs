//! Choices offered on the command line.
use vstd::prelude::*;

verus! {

/// Which bootstrap configuration template to print.
#[derive(Clone, Copy, Debug, PartialEq, Eq, Structural)]
pub enum TemplateMode {
    Shell,
    Supervise,
}

/// How validation results are reported.
#[derive(Clone, Copy, Debug, PartialEq, Eq, Structural)]
pub enum OutputFormat {
    Human,
    Json,
}

} // verus!

verus! {

/// `text` padded with spaces on the right to at least `width` characters.
pub open spec fn pad_right(text: Seq<char>, width: nat) -> Seq<char> {
    if text.len() >= width {
        text
    } else {
        text + Seq::new((width - text.len()) as nat, |i: int| ' ')
    }
}

/// The report line for a zombie process.
pub open spec fn zombie_line(pid: i32, comm: Seq<char>) -> Seq<char> {
    "[ZOMBIE FOUND] PID: "@ + pad_right(crate::config::format::signed_decimal(pid as int), 6)
        + " Command: "@ + comm
}

/// The report lines for the processes in state `Z`, in order.
pub open spec fn zombie_lines(stats: Seq<(i32, char, String)>) -> Seq<Seq<char>>
    decreases stats.len(),
{
    if stats.len() == 0 {
        Seq::empty()
    } else {
        let rest = zombie_lines(stats.drop_last());
        let (pid, state, comm) = stats.last();
        if state == 'Z' {
            rest.push(zombie_line(pid, comm@))
        } else {
            rest
        }
    }
}

/// The report for a scan of processes, each given by its id, its state and
/// its command name: one line per zombie (state `Z`), in order.
pub fn zombie_report(stats: &Vec<(i32, char, String)>) -> (lines: Vec<String>)
    ensures
        lines@.map_values(|l: String| l@) == zombie_lines(stats@),
{
    let mut lines: Vec<String> = Vec::new();
    let mut i: usize = 0;
    while i < stats.len()
        invariant
            i <= stats@.len(),
            lines@.map_values(|l: String| l@) == zombie_lines(stats@.take(i as int)),
        decreases stats@.len() - i,
    {
        proof {
            assert(stats@.take(i + 1).drop_last() =~= stats@.take(i as int));
        }
        let ghost before = lines@;
        if stats[i].1 == 'Z' {
            let mut line = String::from_str("[ZOMBIE FOUND] PID: ");
            let pid = crate::config::format::signed_decimal_string(stats[i].0 as i64);
            let ghost p = pid@;
            line.append(pid.as_str());
            let mut k = pid.as_str().unicode_len();
            let ghost padded = line@;
            while k < 6
                invariant
                    p.len() <= k <= 6 || (k == p.len() && k > 6),
                    line@ == padded + Seq::new((k - p.len()) as nat, |j: int| ' '),
                decreases 6 - k,
            {
                line.append(" ");
                proof {
                    reveal_strlit(" ");
                    assert(padded + Seq::new((k + 1 - p.len()) as nat, |j: int| ' ') =~= padded
                        + Seq::new((k - p.len()) as nat, |j: int| ' ') + " "@);
                }
                k += 1;
            }
            line.append(" Command: ");
            line.append(stats[i].2.as_str());
            proof {
                assert(p == crate::config::format::signed_decimal(stats@[i as int].0 as int));
                if p.len() >= 6 {
                    assert(Seq::new((k - p.len()) as nat, |j: int| ' ') =~= Seq::<char>::empty());
                }
                assert(line@ =~= zombie_line(stats@[i as int].0, stats@[i as int].2@));
            }
            lines.push(line);
            proof {
                assert(lines@.map_values(|l: String| l@) =~= before.map_values(|l: String| l@).push(
                    zombie_line(stats@[i as int].0, stats@[i as int].2@),
                ));
            }
        }
        i += 1;
    }
    proof {
        assert(stats@.take(stats@.len() as int) =~= stats@);
    }
    lines
}

/// The scan reports exactly its processes in state `Z`, in order, one line
/// each: a process in any other state gives no line.
pub proof fn law_only_zombies_are_reported(stats: Seq<(i32, char, String)>)
    ensures
        zombie_lines(stats) == stats.filter(|s: (i32, char, String)| s.1 == 'Z').map_values(
            |s: (i32, char, String)| zombie_line(s.0, s.2@),
        ),
    decreases stats.len(),
{
    reveal(Seq::filter);
    if stats.len() > 0 {
        law_only_zombies_are_reported(stats.drop_last());
        let f = stats.drop_last().filter(|s: (i32, char, String)| s.1 == 'Z');
        let g = |s: (i32, char, String)| zombie_line(s.0, s.2@);
        assert(f.push(stats.last()).map_values(g) =~= f.map_values(g).push(g(stats.last())));
    }
}

/// Adding a process to a scan adds its line to the report when it is in
/// state `Z`, and nothing otherwise.
pub proof fn law_report_grows_by_zombies(stats: Seq<(i32, char, String)>, p: (i32, char, String))
    ensures
        zombie_lines(stats.push(p)) == (if p.1 == 'Z' {
            zombie_lines(stats).push(zombie_line(p.0, p.2@))
        } else {
            zombie_lines(stats)
        }),
        p.1 != 'Z' ==> zombie_lines(seq![p]).len() == 0,
        p.1 == 'Z' ==> zombie_lines(seq![p]) == seq![zombie_line(p.0, p.2@)],
{
    assert(stats.push(p).drop_last() =~= stats);
    let one = seq![p];
    assert(one.drop_last() =~= Seq::<(i32, char, String)>::empty());
    assert(one.last() == p);
    assert(zombie_lines(one.drop_last()) == Seq::<Seq<char>>::empty());
    assert(Seq::<Seq<char>>::empty().push(zombie_line(p.0, p.2@)) =~= seq![zombie_line(p.0, p.2@)]);
}

} // verus!
