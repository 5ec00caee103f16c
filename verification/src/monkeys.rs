//! Monkeys tossing worry-laden items: each monkey is parsed from its block
//! of the input, inspects items from the top of its pile, reworks the worry
//! level, and throws the item onward by a divisibility test.

use vstd::prelude::*;

use crate::parsing::{int_str_val, is_int_str};
use crate::parsing::parse_i64;
use crate::text::{replace_commas, spec_tokens, split_ws};
use vstd::string::StrSliceExecFns;

verus! {

/// How a monkey reworks an item's worry level.
#[derive(Debug)]
pub enum Operation {
    TIMES(i32),
    ADD(i32),
    SQUARE,
}

/// One monkey: its items (top of the pile last), its worry operation, its
/// divisibility test, the targets for either outcome, and how many items it
/// has inspected.
#[derive(Debug)]
pub struct Monkey {
    pub items: Vec<i32>,
    op: Operation,
    test: u32,
    pass_true: usize,
    pass_false: usize,
    pub num_inspected: u32,
}

/// A comma treated as a space, so item lists split like plain words.
pub open spec fn decommaed(s: Seq<char>) -> Seq<char> {
    s.map_values(
        |c: char|
            if c == ',' {
                ' '
            } else {
                c
            },
    )
}

/// The items line: a label, then the starting worry levels.
pub open spec fn items_line_ok(s: Seq<char>) -> bool {
    let toks = spec_tokens(decommaed(s));
    &&& toks.len() >= 2
    &&& forall|k: int|
        2 <= k < toks.len() ==> is_int_str(#[trigger] toks[k]) && i32::MIN <= int_str_val(toks[k])
            <= i32::MAX
}

/// The worry levels the items line lists.
pub open spec fn items_of(s: Seq<char>) -> Seq<i32> {
    let toks = spec_tokens(decommaed(s));
    Seq::new((toks.len() - 2) as nat, |k: int| int_str_val(toks[k + 2]) as i32)
}

/// A literal operand token: a plain value, not the old worry level.
pub open spec fn operand_ok(t: Seq<char>) -> bool {
    is_int_str(t) && i32::MIN <= int_str_val(t) <= i32::MAX
}

/// The operation line: `old * old` squares, `old * v` scales, `old + v`
/// raises.
pub open spec fn op_line_ok(s: Seq<char>) -> bool {
    let toks = spec_tokens(s);
    &&& toks.len() >= 6
    &&& (toks[4] == "*"@ || toks[4] == "+"@)
    &&& (toks[4] == "*"@ ==> (toks[5] == "old"@ || operand_ok(toks[5])))
    &&& (toks[4] == "+"@ ==> operand_ok(toks[5]))
}

/// The operation the operation line spells.
pub open spec fn op_of(s: Seq<char>) -> Operation {
    let toks = spec_tokens(s);
    if toks[4] == "*"@ {
        if toks[5] == "old"@ {
            Operation::SQUARE
        } else {
            Operation::TIMES(int_str_val(toks[5]) as i32)
        }
    } else {
        Operation::ADD(int_str_val(toks[5]) as i32)
    }
}

/// A line whose last word is a value within the given bounds.
pub open spec fn last_word_ok(s: Seq<char>, lo: int, hi: int) -> bool {
    let toks = spec_tokens(s);
    &&& toks.len() >= 1
    &&& is_int_str(toks.last())
    &&& lo <= int_str_val(toks.last()) <= hi
}

/// The value of a line's last word.
pub open spec fn last_word_of(s: Seq<char>) -> int {
    int_str_val(spec_tokens(s).last())
}

/// An item's worry level after the monkey's inspection.
pub open spec fn op_apply(op: Operation, item: int) -> int {
    match op {
        Operation::TIMES(k) => item * k,
        Operation::ADD(k) => item + k,
        Operation::SQUARE => item * item,
    }
}

impl Monkey {
    pub closed spec fn spec_items(&self) -> Seq<i32> {
        self.items@
    }

    pub closed spec fn spec_op(&self) -> Operation {
        self.op
    }

    pub closed spec fn spec_test(&self) -> int {
        self.test as int
    }

    pub closed spec fn spec_pass_true(&self) -> int {
        self.pass_true as int
    }

    pub closed spec fn spec_pass_false(&self) -> int {
        self.pass_false as int
    }

    pub closed spec fn spec_inspected(&self) -> int {
        self.num_inspected as int
    }

    /// Take the starting items from the items line.
    fn parse_items(&mut self, line: &String)
        requires
            items_line_ok(line@),
        ensures
            final(self).items@ == old(self).items@ + items_of(line@),
            final(self).op == old(self).op,
            final(self).test == old(self).test,
            final(self).pass_true == old(self).pass_true,
            final(self).pass_false == old(self).pass_false,
            final(self).num_inspected == old(self).num_inspected,
    {
        let tmp_string: String = replace_commas(line.as_str());
        let tokens: Vec<String> = split_ws(tmp_string.as_str());
        let ghost toks = spec_tokens(decommaed(line@));
        proof {
            assert(tokens@.map_values(|t: String| t@) == toks);
        }
        let n = tokens.len();
        let mut index: usize = 2;
        while index < n
            invariant
                n == toks.len(),
                n >= 2,
                tokens@.map_values(|t: String| t@) == toks,
                tokens@.len() == n,
                2 <= index <= n,
                forall|k: int|
                    2 <= k < n ==> is_int_str(#[trigger] toks[k]) && i32::MIN <= int_str_val(
                        toks[k],
                    ) <= i32::MAX,
                self.items@ == old(self).items@ + Seq::new(
                    (index - 2) as nat,
                    |k: int| int_str_val(toks[k + 2]) as i32,
                ),
                self.op == old(self).op,
                self.test == old(self).test,
                self.pass_true == old(self).pass_true,
                self.pass_false == old(self).pass_false,
                self.num_inspected == old(self).num_inspected,
            decreases n - index,
        {
            proof {
                assert(tokens@[index as int]@ == toks[index as int]);
            }
            let v = crate::parsing::parse_i32(tokens[index].as_str()).unwrap();
            self.items.push(v);
            proof {
                assert(self.items@ =~= old(self).items@ + Seq::new(
                    (index - 1) as nat,
                    |k: int| int_str_val(toks[k + 2]) as i32,
                ));
            }
            index = index + 1;
        }
        proof {
            assert(self.items@ =~= old(self).items@ + items_of(line@));
        }
    }

    /// Take the worry operation from the operation line.
    fn parse_operation(&mut self, line: &String)
        requires
            op_line_ok(line@),
        ensures
            final(self).op == op_of(line@),
            final(self).items == old(self).items,
            final(self).test == old(self).test,
            final(self).pass_true == old(self).pass_true,
            final(self).pass_false == old(self).pass_false,
            final(self).num_inspected == old(self).num_inspected,
    {
        let tokens: Vec<String> = split_ws(line.as_str());
        let ghost toks = spec_tokens(line@);
        proof {
            assert(tokens@[4]@ == toks[4]);
            assert(tokens@[5]@ == toks[5]);
            reveal_strlit("*");
            reveal_strlit("+");
            reveal_strlit("old");
        }
        let star = tokens[4].as_str().unicode_len() == 1 && tokens[4].as_str().get_char(0) == '*';
        if star {
            let is_old = tokens[5].as_str().unicode_len() == 3 && tokens[5].as_str().get_char(0)
                == 'o' && tokens[5].as_str().get_char(1) == 'l' && tokens[5].as_str().get_char(2)
                == 'd';
            proof {
                if star {
                    assert(toks[4] =~= "*"@);
                }
                if is_old {
                    assert(toks[5] =~= "old"@);
                } else {
                    if toks[5] == "old"@ {
                        assert(toks[5].len() == 3 && toks[5][0] == 'o' && toks[5][1] == 'l'
                            && toks[5][2] == 'd');
                        assert(false);
                    }
                }
            }
            if is_old {
                self.op = Operation::SQUARE;
            } else {
                self.op = Operation::TIMES(
                    crate::parsing::parse_i32(tokens[5].as_str()).unwrap(),
                );
            }
        } else {
            proof {
                if toks[4] == "*"@ {
                    assert(toks[4].len() == 1 && toks[4][0] == '*');
                    assert(false);
                }
            }
            self.op = Operation::ADD(crate::parsing::parse_i32(tokens[5].as_str()).unwrap());
        }
    }

    /// Take the divisor from the test line.
    fn parse_test(&mut self, line: &String)
        requires
            last_word_ok(line@, 0, u32::MAX as int),
        ensures
            final(self).test == last_word_of(line@),
            final(self).items == old(self).items,
            final(self).op == old(self).op,
            final(self).pass_true == old(self).pass_true,
            final(self).pass_false == old(self).pass_false,
            final(self).num_inspected == old(self).num_inspected,
    {
        let tokens: Vec<String> = split_ws(line.as_str());
        let ghost toks = spec_tokens(line@);
        proof {
            assert(tokens@.map_values(|t: String| t@) == toks);
            assert(tokens@.len() == toks.len());
        }
        let last = tokens.len() - 1;
        proof {
            assert(tokens@[last as int]@ == toks[last as int]);
            assert(toks[last as int] == toks.last());
        }
        let v = parse_i64(tokens[last].as_str()).unwrap();
        self.test = v as u32;
    }

    /// Take the target for a passing test.
    fn parse_pass_true(&mut self, line: &String)
        requires
            last_word_ok(line@, 0, i64::MAX as int),
            last_word_of(line@) <= usize::MAX,
        ensures
            final(self).pass_true == last_word_of(line@),
            final(self).items == old(self).items,
            final(self).op == old(self).op,
            final(self).test == old(self).test,
            final(self).pass_false == old(self).pass_false,
            final(self).num_inspected == old(self).num_inspected,
    {
        let tokens: Vec<String> = split_ws(line.as_str());
        let ghost toks = spec_tokens(line@);
        proof {
            assert(tokens@.map_values(|t: String| t@) == toks);
            assert(tokens@.len() == toks.len());
        }
        let last = tokens.len() - 1;
        proof {
            assert(tokens@[last as int]@ == toks[last as int]);
            assert(toks[last as int] == toks.last());
        }
        let v = parse_i64(tokens[last].as_str()).unwrap();
        self.pass_true = v as usize;
    }

    /// Take the target for a failing test.
    fn parse_pass_false(&mut self, line: &String)
        requires
            last_word_ok(line@, 0, i64::MAX as int),
            last_word_of(line@) <= usize::MAX,
        ensures
            final(self).pass_false == last_word_of(line@),
            final(self).items == old(self).items,
            final(self).op == old(self).op,
            final(self).test == old(self).test,
            final(self).pass_true == old(self).pass_true,
            final(self).num_inspected == old(self).num_inspected,
    {
        let tokens: Vec<String> = split_ws(line.as_str());
        let ghost toks = spec_tokens(line@);
        proof {
            assert(tokens@.map_values(|t: String| t@) == toks);
            assert(tokens@.len() == toks.len());
        }
        let last = tokens.len() - 1;
        proof {
            assert(tokens@[last as int]@ == toks[last as int]);
            assert(toks[last as int] == toks.last());
        }
        let v = parse_i64(tokens[last].as_str()).unwrap();
        self.pass_false = v as usize;
    }

    /// Parse one monkey from its six-line block.
    pub fn new(lines: &[String]) -> (r: Self)
        requires
            lines@.len() >= 6,
            items_line_ok(lines@[1]@),
            op_line_ok(lines@[2]@),
            last_word_ok(lines@[3]@, 0, u32::MAX as int),
            last_word_ok(lines@[4]@, 0, i64::MAX as int),
            last_word_of(lines@[4]@) <= usize::MAX,
            last_word_ok(lines@[5]@, 0, i64::MAX as int),
            last_word_of(lines@[5]@) <= usize::MAX,
        ensures
            r.spec_items() == items_of(lines@[1]@),
            r.spec_op() == op_of(lines@[2]@),
            r.spec_test() == last_word_of(lines@[3]@),
            r.spec_pass_true() == last_word_of(lines@[4]@),
            r.spec_pass_false() == last_word_of(lines@[5]@),
            r.spec_inspected() == 0,
    {
        let mut me = Self {
            items: Vec::new(),
            op: Operation::TIMES(4),
            test: 17,
            pass_true: 0,
            pass_false: 0,
            num_inspected: 0,
        };
        me.parse_items(&lines[1]);
        me.parse_operation(&lines[2]);
        me.parse_test(&lines[3]);
        me.parse_pass_true(&lines[4]);
        me.parse_pass_false(&lines[5]);
        proof {
            assert(me.items@ =~= items_of(lines@[1]@));
        }
        me
    }

    /// Catch a thrown item.
    pub fn add_item(&mut self, item: i32)
        ensures
            final(self).spec_items() == old(self).spec_items().push(item),
            final(self).spec_op() == old(self).spec_op(),
            final(self).spec_test() == old(self).spec_test(),
            final(self).spec_pass_true() == old(self).spec_pass_true(),
            final(self).spec_pass_false() == old(self).spec_pass_false(),
            final(self).spec_inspected() == old(self).spec_inspected(),
    {
        self.items.push(item);
    }

    /// Inspect the top item, rework its worry level, relax it by a third,
    /// and say which monkey it flies to; nothing happens on an empty pile.
    pub fn toss(&mut self) -> (r: Option<(usize, i32)>)
        requires
            old(self).spec_items().len() > 0 ==> {
                &&& 0 <= op_apply(old(self).spec_op(), old(self).spec_items().last() as int)
                    <= i32::MAX
                &&& 0 < old(self).spec_test() <= i32::MAX
                &&& old(self).spec_inspected() < u32::MAX
            },
        ensures
            final(self).spec_op() == old(self).spec_op(),
            final(self).spec_test() == old(self).spec_test(),
            final(self).spec_pass_true() == old(self).spec_pass_true(),
            final(self).spec_pass_false() == old(self).spec_pass_false(),
            old(self).spec_items().len() == 0 ==> (r is None && *final(self) == *old(self)),
            old(self).spec_items().len() > 0 ==> {
                let relaxed = op_apply(old(self).spec_op(), old(self).spec_items().last() as int)
                    / 3;
                let dest = if relaxed % old(self).spec_test() == 0 {
                    old(self).spec_pass_true()
                } else {
                    old(self).spec_pass_false()
                };
                &&& final(self).spec_items() == old(self).spec_items().drop_last()
                &&& final(self).spec_inspected() == old(self).spec_inspected() + 1
                &&& r == Some(((dest as usize), (relaxed as i32)))
            },
    {
        if self.items.len() == 0 {
            None
        } else {
            self.num_inspected = self.num_inspected + 1;
            let mut item = self.items.pop().unwrap();
            item = match self.op {
                Operation::TIMES(op2) => item * op2,
                Operation::ADD(op2) => item + op2,
                Operation::SQUARE => item * item,
            };
            item = item / 3;
            let dest = if (item % self.test as i32) == 0 {
                self.pass_true
            } else {
                self.pass_false
            };
            Some((dest, item))
        }
    }
}

} // verus!
