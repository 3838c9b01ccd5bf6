use vstd::prelude::*;
use vstd::string::{StrSliceExecFns, StringExecFns};
use crate::model::WorldPos;
use crate::text::{decimal, push_decimal};

verus! {

broadcast use vstd::string::group_string_axioms;

/// The three coordinates of a world position as decimal words, each
/// preceded by a space.
pub open spec fn coords_text(p: WorldPos) -> Seq<char> {
    seq![' '] + decimal(p.x as int) + seq![' '] + decimal(p.y as int) + seq![' '] + decimal(
        p.z as int,
    )
}

/// `fill x1 y1 z1 x2 y2 z2 <block>`: set every block of a box.
pub open spec fn fill_text(a: WorldPos, b: WorldPos, block: Seq<char>) -> Seq<char> {
    seq!['f', 'i', 'l', 'l'] + coords_text(a) + coords_text(b) + seq![' '] + block
}

/// `setblock x y z <block>`: set one block.
pub open spec fn setblock_text(p: WorldPos, block: Seq<char>) -> Seq<char> {
    seq!['s', 'e', 't', 'b', 'l', 'o', 'c', 'k'] + coords_text(p) + seq![' '] + block
}

/// The identifier of the empty block.
pub open spec fn air() -> Seq<char> {
    seq!['a', 'i', 'r']
}

/// `tick freeze`: halt the world clock.
pub open spec fn freeze_text() -> Seq<char> {
    seq!['t', 'i', 'c', 'k', ' ', 'f', 'r', 'e', 'e', 'z', 'e']
}

/// `tick unfreeze`: let the world clock run again.
pub open spec fn unfreeze_text() -> Seq<char> {
    seq!['t', 'i', 'c', 'k', ' ', 'u', 'n', 'f', 'r', 'e', 'e', 'z', 'e']
}

/// `tick step 1`: advance the frozen world clock by one tick.
pub open spec fn step_text() -> Seq<char> {
    seq!['t', 'i', 'c', 'k', ' ', 's', 't', 'e', 'p', ' ', '1']
}

/// A command as sent: with a leading `/`, added when missing.
pub open spec fn slashed(cmd: Seq<char>) -> Seq<char> {
    if cmd.len() > 0 && cmd[0] == '/' {
        cmd
    } else {
        seq!['/'] + cmd
    }
}

fn push_coords(out: &mut String, p: WorldPos)
    ensures
        final(out)@ == old(out)@ + coords_text(p),
{
    proof { reveal_strlit(" "); }
    out.append(" ");
    push_decimal(out, p.x);
    out.append(" ");
    push_decimal(out, p.y);
    out.append(" ");
    push_decimal(out, p.z);
    proof {
        assert(final(out)@ =~= old(out)@ + coords_text(p));
    }
}

/// The command that fills the box from `a` to `b` with `block`.
pub fn fill_command(a: WorldPos, b: WorldPos, block: &str) -> (r: String)
    ensures
        r@ == fill_text(a, b, block@),
{
    proof {
        reveal_strlit("fill");
        reveal_strlit(" ");
    }
    let mut out = String::new();
    out.append("fill");
    push_coords(&mut out, a);
    push_coords(&mut out, b);
    out.append(" ");
    out.append(block);
    proof {
        assert(out@ =~= fill_text(a, b, block@));
    }
    out
}

/// The command that sets the block at `p` to `block`.
pub fn setblock_command(p: WorldPos, block: &str) -> (r: String)
    ensures
        r@ == setblock_text(p, block@),
{
    proof {
        reveal_strlit("setblock");
        reveal_strlit(" ");
    }
    let mut out = String::new();
    out.append("setblock");
    push_coords(&mut out, p);
    out.append(" ");
    out.append(block);
    proof {
        assert(out@ =~= setblock_text(p, block@));
    }
    out
}

/// The command that empties the box from `a` to `b`.
pub fn clear_command(a: WorldPos, b: WorldPos) -> (r: String)
    ensures
        r@ == fill_text(a, b, air()),
{
    proof { reveal_strlit("air"); }
    fill_command(a, b, "air")
}

/// The command that empties the block at `p`.
pub fn remove_command(p: WorldPos) -> (r: String)
    ensures
        r@ == setblock_text(p, air()),
{
    proof { reveal_strlit("air"); }
    setblock_command(p, "air")
}

pub fn freeze_command() -> (r: String)
    ensures
        r@ == freeze_text(),
{
    proof { reveal_strlit("tick freeze"); }
    String::from_str("tick freeze")
}

pub fn unfreeze_command() -> (r: String)
    ensures
        r@ == unfreeze_text(),
{
    proof { reveal_strlit("tick unfreeze"); }
    String::from_str("tick unfreeze")
}

pub fn step_command() -> (r: String)
    ensures
        r@ == step_text(),
{
    proof { reveal_strlit("tick step 1"); }
    String::from_str("tick step 1")
}

/// The text to send for `command`: the command itself when it starts with
/// `/`, else the command after a `/`.
pub fn command_with_slash(command: &str) -> (r: String)
    ensures
        r@ == slashed(command@),
{
    let n = command.unicode_len();
    if n > 0 && command.get_char(0) == '/' {
        String::from_str(command)
    } else {
        proof { reveal_strlit("/"); }
        let mut out = String::from_str("/");
        out.append(command);
        out
    }
}

} // verus!
