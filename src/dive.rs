use vstd::prelude::*;
use vstd::math::abs;
use crate::text::{parse_i32, spec_i32, split_at_sep, split_pieces, split_ranges, text_is};

verus! {

/// One instruction to the submarine.
#[derive(Debug, Clone, Copy, PartialEq, Eq, Structural)]
pub enum Command {
    Forward(i32),
    Up(i32),
    Down(i32),
}

/// The command that the line `s` writes: a word and an amount separated by one
/// space, or `None`.
pub open spec fn spec_command(s: Seq<char>) -> Option<Command> {
    let parts = split_pieces(s, seq![' ']);
    if parts.len() != 2 {
        None
    } else {
        match spec_i32(parts[1]) {
            Some(n) => if parts[0] == seq!['f', 'o', 'r', 'w', 'a', 'r', 'd'] {
                Some(Command::Forward(n))
            } else if parts[0] == seq!['u', 'p'] {
                Some(Command::Up(n))
            } else if parts[0] == seq!['d', 'o', 'w', 'n'] {
                Some(Command::Down(n))
            } else {
                None
            },
            None => None,
        }
    }
}

/// Reads a command line such as `forward 5`.
pub fn parse_command(s: &str) -> (r: Result<Command, &'static str>)
    ensures
        match r {
            Ok(c) => spec_command(s@) == Some(c),
            Err(_) => spec_command(s@).is_none(),
        },
{
    proof {
        reveal_strlit(" ");
        reveal_strlit("forward");
        reveal_strlit("up");
        reveal_strlit("down");
        assert(" ".view() =~= seq![' ']);
        assert("forward".view() =~= seq!['f', 'o', 'r', 'w', 'a', 'r', 'd']);
        assert("up".view() =~= seq!['u', 'p']);
        assert("down".view() =~= seq!['d', 'o', 'w', 'n']);
    }
    let parts = split_at_sep(s, " ");
    let ghost rr = split_ranges(s@, seq![' '], 0, 0);
    if parts.len() != 2 {
        return Err("a command is a word and an amount");
    }
    assert(split_pieces(s@, seq![' '])[0] == s@.subrange(rr[0].0, rr[0].1));
    assert(split_pieces(s@, seq![' '])[1] == s@.subrange(rr[1].0, rr[1].1));
    let n = match parse_i32(s, parts[1].0, parts[1].1) {
        Some(n) => n,
        None => return Err("bad amount"),
    };
    if text_is(s, parts[0].0, parts[0].1, "forward") {
        Ok(Command::Forward(n))
    } else if text_is(s, parts[0].0, parts[0].1, "up") {
        Ok(Command::Up(n))
    } else if text_is(s, parts[0].0, parts[0].1, "down") {
        Ok(Command::Down(n))
    } else {
        Err("unknown command")
    }
}

/// Horizontal position and depth after `cmds`, where `up` and `down` change the
/// depth directly.
pub open spec fn plain_course(cmds: Seq<Command>) -> (int, int)
    decreases cmds.len(),
{
    if cmds.len() == 0 {
        (0, 0)
    } else {
        let (p, d) = plain_course(cmds.drop_last());
        match cmds.last() {
            Command::Forward(n) => (p + n, d),
            Command::Up(n) => (p, d - n),
            Command::Down(n) => (p, d + n),
        }
    }
}

/// Horizontal position, depth and aim after `cmds`, where `up` and `down`
/// change the aim and `forward` dives by the aim times the amount.
pub open spec fn aimed_course(cmds: Seq<Command>) -> (int, int, int)
    decreases cmds.len(),
{
    if cmds.len() == 0 {
        (0, 0, 0)
    } else {
        let (p, d, a) = aimed_course(cmds.drop_last());
        match cmds.last() {
            Command::Forward(n) => (p + n, d + a * n, a),
            Command::Up(n) => (p, d, a - n),
            Command::Down(n) => (p, d, a + n),
        }
    }
}

/// `v` as an `i128`, where it fits.
pub open spec fn fit_i128(v: int) -> Option<i128> {
    if i128::MIN <= v <= i128::MAX {
        Some(v as i128)
    } else {
        None
    }
}

proof fn lemma_plain_bounds(cmds: Seq<Command>)
    ensures
        abs(plain_course(cmds).0) <= cmds.len() * 0x8000_0000,
        abs(plain_course(cmds).1) <= cmds.len() * 0x8000_0000,
    decreases cmds.len(),
{
    if cmds.len() > 0 {
        lemma_plain_bounds(cmds.drop_last());
    }
}

/// Position times depth after `cmds` in the plain model; `None` where the
/// product does not fit an `i128`.
pub fn plain_product(cmds: &Vec<Command>) -> (r: Option<i128>)
    requires
        cmds@.len() <= u32::MAX,
    ensures
        r == fit_i128(plain_course(cmds@).0 * plain_course(cmds@).1),
{
    let mut pos: i128 = 0;
    let mut depth: i128 = 0;
    let mut i: usize = 0;
    while i < cmds.len()
        invariant
            i <= cmds@.len() <= u32::MAX,
            (pos as int, depth as int) == plain_course(cmds@.subrange(0, i as int)),
        decreases cmds@.len() - i,
    {
        let ghost pre = cmds@.subrange(0, i as int);
        let ghost next = cmds@.subrange(0, i + 1);
        assert(next.drop_last() == pre);
        proof {
            lemma_plain_bounds(pre);
            assert(pre.len() * 0x8000_0000 <= 0x1_0000_0000 * 0x8000_0000) by (nonlinear_arith)
                requires
                    pre.len() <= u32::MAX,
            ;
        }
        match cmds[i] {
            Command::Forward(n) => pos = pos + n as i128,
            Command::Up(n) => depth = depth - n as i128,
            Command::Down(n) => depth = depth + n as i128,
        }
        i = i + 1;
    }
    assert(cmds@.subrange(0, i as int) == cmds@);
    pos.checked_mul(depth)
}

proof fn lemma_aimed_bounds(cmds: Seq<Command>)
    requires
        cmds.len() <= u32::MAX,
    ensures
        abs(aimed_course(cmds).0) <= cmds.len() * 0x8000_0000,
        abs(aimed_course(cmds).2) <= cmds.len() * 0x8000_0000,
        abs(aimed_course(cmds).1) <= cmds.len() * (cmds.len() * 0x8000_0000) * 0x8000_0000,
    decreases cmds.len(),
{
    if cmds.len() > 0 {
        let pre = cmds.drop_last();
        lemma_aimed_bounds(pre);
        let (p, d, a) = aimed_course(pre);
        let k = pre.len() as int;
        match cmds.last() {
            Command::Forward(n) => {
                assert(abs(a * n) <= (k * 0x8000_0000) * 0x8000_0000) by (nonlinear_arith)
                    requires
                        abs(a) <= k * 0x8000_0000,
                        abs(n as int) <= 0x8000_0000,
                        k >= 0,
                ;
                assert(k * (k * 0x8000_0000) * 0x8000_0000 + (k * 0x8000_0000) * 0x8000_0000 <= (k + 1) * ((k
                    + 1) * 0x8000_0000) * 0x8000_0000) by (nonlinear_arith)
                    requires
                        k >= 0,
                ;
            },
            _ => {
                assert(k * (k * 0x8000_0000) * 0x8000_0000 <= (k + 1) * ((k + 1) * 0x8000_0000) * 0x8000_0000)
                    by (nonlinear_arith)
                    requires
                        k >= 0,
                ;
            },
        }
    }
}

/// Position times depth after `cmds` in the aimed model; `None` where the
/// product does not fit an `i128`.
pub fn aimed_product(cmds: &Vec<Command>) -> (r: Option<i128>)
    requires
        cmds@.len() <= u32::MAX,
    ensures
        r == fit_i128(aimed_course(cmds@).0 * aimed_course(cmds@).1),
{
    let mut pos: i128 = 0;
    let mut depth: i128 = 0;
    let mut aim: i128 = 0;
    let mut i: usize = 0;
    while i < cmds.len()
        invariant
            i <= cmds@.len() <= u32::MAX,
            (pos as int, depth as int, aim as int) == aimed_course(cmds@.subrange(0, i as int)),
        decreases cmds@.len() - i,
    {
        let ghost pre = cmds@.subrange(0, i as int);
        let ghost next = cmds@.subrange(0, i + 1);
        assert(next.drop_last() == pre);
        proof {
            lemma_aimed_bounds(pre);
            lemma_aimed_bounds(next);
            let k = next.len() as int;
            assert(k * 0x8000_0000 <= 0x1_0000_0000 * 0x8000_0000) by (nonlinear_arith)
                requires
                    0 <= k <= 0x1_0000_0000,
            ;
            assert(k * (k * 0x8000_0000) * 0x8000_0000 <= 0x1_0000_0000 * (0x1_0000_0000 * 0x8000_0000)
                * 0x8000_0000) by (nonlinear_arith)
                requires
                    0 <= k <= 0x1_0000_0000,
            ;
        }
        match cmds[i] {
            Command::Forward(n) => {
                proof {
                    let k = pre.len() as int;
                    assert(abs(aim * n) <= 0x1_0000_0000 * 0x8000_0000 * 0x8000_0000) by (nonlinear_arith)
                        requires
                            abs(aim as int) <= k * 0x8000_0000,
                            0 <= k <= 0x1_0000_0000,
                            abs(n as int) <= 0x8000_0000,
                    ;
                }
                pos = pos + n as i128;
                depth = depth + aim * n as i128;
            },
            Command::Up(n) => aim = aim - n as i128,
            Command::Down(n) => aim = aim + n as i128,
        }
        i = i + 1;
    }
    assert(cmds@.subrange(0, i as int) == cmds@);
    pos.checked_mul(depth)
}

} // verus!
