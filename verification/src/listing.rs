//! How compiled programs are written: the assembly listing and LaTeX.
use vstd::prelude::*;
use crate::cnf::{cnf_zero, cnf_nat};
use crate::dendrons::Dendron;
use crate::syntax::Op;
use crate::parsing::{CodeBlock, Instruction};
use crate::text::{display, tex, push_all, chars_to_string};
use crate::parsing::str_chars;

verus! {

/// The listing of one instruction: "+= k", "/ d > r", "{...}", "mvf(d)" or "lnz".
pub open spec fn op_listing(op: Op) -> Seq<char>
    decreases op,
{
    match op {
        Op::Add(k) => "+= "@ + display(k),
        Op::Divsub(d, r) => "/ "@ + display(d) + " > "@ + display(r),
        Op::Prune(b) => "{"@ + block_listing(b) + "}"@,
        Op::MoveFinite(d) => "mvf("@ + display(d) + ")"@,
        Op::InfLoopNZ => "lnz"@,
    }
}

/// The listings of the instructions joined by ", ".
pub open spec fn block_listing(b: Seq<Op>) -> Seq<char>
    decreases b,
{
    if b.len() == 0 {
        Seq::empty()
    } else if b.len() == 1 {
        op_listing(b[0])
    } else {
        op_listing(b[0]) + ", "@ + block_listing(b.drop_first())
    }
}

/// How deeply prune loops nest in the block.
pub open spec fn block_depth(b: Seq<Op>) -> nat
    decreases b,
{
    if b.len() == 0 {
        0
    } else {
        let d = match b[0] {
            Op::Prune(inner) => 1 + block_depth(inner),
            _ => 0,
        };
        let e = block_depth(b.drop_first());
        if d >= e {
            d
        } else {
            e
        }
    }
}

/// `n` spaces.
pub open spec fn spaces(n: nat) -> Seq<char> {
    Seq::new(n, |i: int| ' ')
}

/// The LaTeX of one instruction at nesting `indent`.
pub open spec fn op_tex(op: Op, indent: nat) -> Seq<char>
    decreases op, 1int,
{
    match op {
        Op::Add(k) => r"$\xi \leftarrow \xi + "@ + tex(k) + "$"@,
        Op::Divsub(d, r) => if d == cnf_nat(1) {
            r"$\xi \leftarrow (\xi \cdot "@ + tex(r) + ")$"@
        } else {
            r"$\xi \leftarrow \xi \Big/ \left("@ + tex(d) + r" \rightarrow "@ + tex(r) + r"\right) $"@
        },
        Op::InfLoopNZ => r"if $\xi = \alpha + 1$, infinite loop"@,
        Op::MoveFinite(d) => if d == cnf_zero() {
            r"$\xi \leftarrow \lfloor \xi \rfloor$"@
        } else {
            r"\xi \leftarrow \lfloor \xi \rfloor + \operatorname{finite}(\xi) \cdot \left("@ + tex(d) + r"\right)$"@
        },
        Op::Prune(b) => "while $\\xi = \\alpha + 1$: do $\\xi \\leftarrow \\alpha$ \n"@ + block_tex(b, indent + 1),
    }
}

/// The LaTeX of a block at nesting `indent`: one line per instruction, each
/// "* " after `4 * indent` spaces, joined by line breaks.
pub open spec fn block_tex(b: Seq<Op>, indent: nat) -> Seq<char>
    decreases b, 0int,
{
    if b.len() == 0 {
        Seq::empty()
    } else if b.len() == 1 {
        spaces(indent * 4) + "* "@ + op_tex(b[0], indent)
    } else {
        spaces(indent * 4) + "* "@ + op_tex(b[0], indent) + "\n"@ + block_tex(b.drop_first(), indent)
    }
}

fn push_str(out: &mut Vec<char>, s: &str)
    ensures
        final(out)@ == old(out)@ + s@,
{
    let v = str_chars(s);
    push_all(out, &v);
}

impl Dendron {
    fn write_plain(&self, out: &mut Vec<char>)
        ensures
            final(out)@ == old(out)@ + display(self@),
    {
        let s = self.to_string();
        push_str(out, s.as_str());
    }

    fn write_latex(&self, out: &mut Vec<char>)
        ensures
            final(out)@ == old(out)@ + tex(self@),
    {
        let s = self.as_tex();
        push_str(out, s.as_str());
    }
}

impl Instruction {
    fn write_listing(&self, out: &mut Vec<char>)
        ensures
            final(out)@ == old(out)@ + op_listing(self@),
        decreases self@,
    {
        match self {
            Instruction::Add(k) => {
                push_str(out, "+= ");
                k.write_plain(out);
            },
            Instruction::Divsub { divisor, replacement } => {
                push_str(out, "/ ");
                divisor.write_plain(out);
                push_str(out, " > ");
                replacement.write_plain(out);
            },
            Instruction::Prune(b) => {
                push_str(out, "{");
                proof {
                    assert(decreases_to!(self@ => self@->Prune_0));
                }
                b.write_listing(out);
                push_str(out, "}");
            },
            Instruction::MoveFinite(d) => {
                push_str(out, "mvf(");
                d.write_plain(out);
                push_str(out, ")");
            },
            Instruction::InfLoopNZ => {
                push_str(out, "lnz");
            },
        }
        proof {
            assert(out@ =~= old(out)@ + op_listing(self@));
        }
    }

    /// The listing of the instruction: "+= k", "/ d > r", "{...}", "mvf(d)" or "lnz".
    pub fn to_string(&self) -> (r: String)
        ensures
            r@ == op_listing(self@),
    {
        let mut out: Vec<char> = Vec::new();
        self.write_listing(&mut out);
        proof {
            assert(out@ =~= op_listing(self@));
        }
        chars_to_string(&out)
    }
}

impl CodeBlock {
    fn write_listing(&self, out: &mut Vec<char>)
        ensures
            final(out)@ == old(out)@ + block_listing(self@),
        decreases self@,
    {
        let v = self.instructions();
        let n = v.len();
        let ghost b = self@;
        let ghost start = out@;
        let mut i: usize = 0;
        proof {
            assert(b.skip(0) =~= b);
        }
        while i < n
            invariant
                n == v@.len(),
                n == b.len(),
                b == self@,
                i <= n,
                forall|j: int| 0 <= j < v@.len() ==> (#[trigger] v@[j])@ == b[j],
                start + block_listing(b) == out@ + block_listing(b.skip(i as int)),
            decreases n - i,
        {
            let ghost t = b.skip(i as int);
            proof {
                assert(t[0] == b[i as int]);
                assert(t.drop_first() =~= b.skip(i + 1));
                assert(decreases_to!(b => b[i as int]));
            }
            let ghost pre = out@;
            v[i].write_listing(out);
            if i + 1 < n {
                push_str(out, ", ");
            }
            i = i + 1;
            proof {
                if i < n {
                    assert(out@ =~= pre + op_listing(t[0]) + ", "@);
                } else {
                    assert(t.len() == 1);
                    assert(b.skip(i as int) =~= Seq::<Op>::empty());
                }
            }
        }
        proof {
            assert(b.skip(n as int) =~= Seq::<Op>::empty());
        }
    }

    /// The listing of the block: its instructions joined by ", ".
    pub fn to_string(&self) -> (r: String)
        ensures
            r@ == block_listing(self@),
    {
        let mut out: Vec<char> = Vec::new();
        self.write_listing(&mut out);
        proof {
            assert(out@ =~= block_listing(self@));
        }
        chars_to_string(&out)
    }
}


/// A prune loop in a block nests one level deeper than the block.
pub proof fn lemma_block_depth(b: Seq<Op>, i: int)
    requires
        0 <= i < b.len(),
    ensures
        b[i] matches Op::Prune(inner) ==> block_depth(b) >= 1 + block_depth(inner),
    decreases b.len(),
{
    if i > 0 {
        assert(b.drop_first()[i - 1] == b[i]);
        lemma_block_depth(b.drop_first(), i - 1);
    }
}

fn push_spaces(out: &mut Vec<char>, n: usize)
    ensures
        final(out)@ == old(out)@ + spaces(n as nat),
{
    let mut i: usize = 0;
    while i < n
        invariant
            i <= n,
            out@ == old(out)@ + spaces(i as nat),
        decreases n - i,
    {
        out.push(' ');
        i = i + 1;
        proof {
            assert(out@ =~= old(out)@ + spaces(i as nat));
        }
    }
}

impl Instruction {
    fn write_tex(&self, indent: usize, out: &mut Vec<char>)
        requires
            self@ matches Op::Prune(b) ==> indent + 1 + block_depth(b) <= usize::MAX / 4,
        ensures
            final(out)@ == old(out)@ + op_tex(self@, indent as nat),
        decreases self@, 1int,
    {
        match self {
            Instruction::Add(k) => {
                push_str(out, r"$\xi \leftarrow \xi + ");
                k.write_latex(out);
                push_str(out, "$");
            },
            Instruction::Divsub { divisor, replacement } => {
                if divisor.is_one() {
                    push_str(out, r"$\xi \leftarrow (\xi \cdot ");
                    replacement.write_latex(out);
                    push_str(out, ")$");
                } else {
                    push_str(out, r"$\xi \leftarrow \xi \Big/ \left(");
                    divisor.write_latex(out);
                    push_str(out, r" \rightarrow ");
                    replacement.write_latex(out);
                    push_str(out, r"\right) $");
                }
            },
            Instruction::InfLoopNZ => {
                push_str(out, r"if $\xi = \alpha + 1$, infinite loop");
            },
            Instruction::MoveFinite(d) => {
                if d.is_zero() {
                    push_str(out, r"$\xi \leftarrow \lfloor \xi \rfloor$");
                } else {
                    push_str(out, r"\xi \leftarrow \lfloor \xi \rfloor + \operatorname{finite}(\xi) \cdot \left(");
                    d.write_latex(out);
                    push_str(out, r"\right)$");
                }
            },
            Instruction::Prune(b) => {
                push_str(out, "while $\\xi = \\alpha + 1$: do $\\xi \\leftarrow \\alpha$ \n");
                proof {
                    assert(decreases_to!(self@ => self@->Prune_0));
                }
                b.write_tex(indent + 1, out);
            },
        }
        proof {
            assert(out@ =~= old(out)@ + op_tex(self@, indent as nat));
        }
    }
}

impl CodeBlock {
    fn write_tex(&self, indent: usize, out: &mut Vec<char>)
        requires
            indent + block_depth(self@) <= usize::MAX / 4,
        ensures
            final(out)@ == old(out)@ + block_tex(self@, indent as nat),
        decreases self@, 0int,
    {
        let v = self.instructions();
        let n = v.len();
        let ghost b = self@;
        let ghost start = out@;
        let mut i: usize = 0;
        proof {
            assert(b.skip(0) =~= b);
        }
        while i < n
            invariant
                n == v@.len(),
                n == b.len(),
                b == self@,
                i <= n,
                indent + block_depth(b) <= usize::MAX / 4,
                forall|j: int| 0 <= j < v@.len() ==> (#[trigger] v@[j])@ == b[j],
                start + block_tex(b, indent as nat) == out@ + block_tex(b.skip(i as int), indent as nat),
            decreases n - i,
        {
            let ghost t = b.skip(i as int);
            proof {
                assert(t[0] == b[i as int]);
                assert(t.drop_first() =~= b.skip(i + 1));
                assert(decreases_to!(b => b[i as int]));
                lemma_block_depth(b, i as int);
            }
            let ghost pre = out@;
            push_spaces(out, indent * 4);
            push_str(out, "* ");
            v[i].write_tex(indent, out);
            if i + 1 < n {
                push_str(out, "\n");
            }
            i = i + 1;
            proof {
                if i < n {
                    assert(out@ =~= pre + spaces((indent * 4) as nat) + "* "@ + op_tex(t[0], indent as nat) + "\n"@);
                } else {
                    assert(t.len() == 1);
                    assert(out@ =~= pre + spaces((indent * 4) as nat) + "* "@ + op_tex(t[0], indent as nat));
                    assert(b.skip(i as int) =~= Seq::<Op>::empty());
                }
            }
        }
        proof {
            assert(b.skip(n as int) =~= Seq::<Op>::empty());
        }
    }

    /// The LaTeX of the block at nesting `indent`: one line per instruction, each
    /// "* " after `4 * indent` spaces, prune loops nesting one level deeper.
    pub fn as_tex_inner(&self, indent: usize) -> (r: String)
        requires
            indent + block_depth(self@) <= usize::MAX / 4,
        ensures
            r@ == block_tex(self@, indent as nat),
    {
        let mut out: Vec<char> = Vec::new();
        self.write_tex(indent, &mut out);
        proof {
            assert(out@ =~= block_tex(self@, indent as nat));
        }
        chars_to_string(&out)
    }

    /// Whether prune loops nest at most `limit` deep in the block.
    pub fn depth_at_most(&self, limit: usize) -> (r: bool)
        ensures
            r == (block_depth(self@) <= limit),
        decreases self@,
    {
        let v = self.instructions();
        let n = v.len();
        let ghost b = self@;
        let mut i: usize = 0;
        proof {
            assert(b.skip(0) =~= b);
        }
        while i < n
            invariant
                n == v@.len(),
                n == b.len(),
                b == self@,
                i <= n,
                forall|j: int| 0 <= j < v@.len() ==> (#[trigger] v@[j])@ == b[j],
                (block_depth(b) <= limit) == (block_depth(b.skip(i as int)) <= limit),
            decreases n - i,
        {
            let ghost t = b.skip(i as int);
            proof {
                assert(t[0] == b[i as int]);
                assert(t.drop_first() =~= b.skip(i + 1));
            }
            match &v[i] {
                Instruction::Prune(inner) => {
                    proof {
                        assert(b[i as int] == Op::Prune(inner@));
                        assert(decreases_to!(b => b[i as int]));
                        assert(decreases_to!(b[i as int] => b[i as int]->Prune_0));
                    }
                    if limit == 0 {
                        return false;
                    }
                    if !inner.depth_at_most(limit - 1) {
                        return false;
                    }
                },
                _ => {
                    proof {
                        assert(!(b[i as int] is Prune));
                    }
                },
            }
            i = i + 1;
        }
        proof {
            assert(b.skip(n as int) =~= Seq::<Op>::empty());
        }
        true
    }

    /// Whether the block can be written in LaTeX at nesting `indent` (what
    /// `as_tex_inner` requires).
    pub fn tex_fits(&self, indent: usize) -> (r: bool)
        ensures
            r == (indent + block_depth(self@) <= usize::MAX / 4),
    {
        if indent > usize::MAX / 4 {
            false
        } else {
            self.depth_at_most(usize::MAX / 4 - indent)
        }
    }

    /// The LaTeX of the block, at nesting zero.
    pub fn as_tex(&self) -> (r: String)
        requires
            block_depth(self@) <= usize::MAX / 4,
        ensures
            r@ == block_tex(self@, 0),
    {
        self.as_tex_inner(0)
    }
}

} // verus!
