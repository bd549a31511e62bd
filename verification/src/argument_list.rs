//! The arguments of a function call.

use vstd::prelude::*;

use crate::expression::Expr;

verus! {

/// The arguments of a function call, by keyword.
pub struct ArgumentList<E> {
    arguments: Vec<(String, Expr<E>)>,
}

/// No two arguments have the same keyword.
spec fn distinct<E>(arguments: Seq<(String, Expr<E>)>) -> bool {
    forall|i: int, j: int|
        0 <= i < j < arguments.len() ==> (#[trigger] arguments[i]).0@ != (
        #[trigger] arguments[j]).0@
}

/// Argument `i` has this keyword.
spec fn is_for<E>(arguments: Seq<(String, Expr<E>)>, i: int, keyword: Seq<char>) -> bool {
    0 <= i < arguments.len() && arguments[i].0@ == keyword
}

/// The arguments by keyword.
spec fn by_keyword<E>(arguments: Seq<(String, Expr<E>)>) -> Map<Seq<char>, Expr<E>> {
    Map::new(
        |keyword: Seq<char>| exists|i: int| is_for(arguments, i, keyword),
        |keyword: Seq<char>| arguments[choose|i: int| is_for(arguments, i, keyword)].1,
    )
}

/// A map that holds each of the arguments, and nothing else, is the arguments by keyword.
proof fn lemma_by_keyword<E>(arguments: Seq<(String, Expr<E>)>, map: Map<Seq<char>, Expr<E>>)
    requires
        forall|i: int|
            0 <= i < arguments.len() ==> map.contains_key((#[trigger] arguments[i]).0@)
                && map[arguments[i].0@] == arguments[i].1,
        forall|keyword: Seq<char>| #[trigger]
            map.contains_key(keyword) ==> exists|i: int| is_for(arguments, i, keyword),
    ensures
        by_keyword(arguments) == map,
{
    assert forall|keyword: Seq<char>| #[trigger]
        by_keyword(arguments).contains_key(keyword) implies map.contains_key(keyword)
        && by_keyword(arguments)[keyword] == map[keyword] by {
        let i = choose|i: int| is_for(arguments, i, keyword);
        assert(arguments[i].0@ == keyword);
    }
    assert forall|keyword: Seq<char>| #[trigger] map.contains_key(keyword) implies by_keyword(
        arguments,
    ).contains_key(keyword) by {}
    assert(by_keyword(arguments).dom() =~= map.dom());
    assert(by_keyword(arguments) =~= map);
}

/// An argument is what its keyword stands for.
proof fn lemma_argument<E>(arguments: Seq<(String, Expr<E>)>, i: int)
    requires
        distinct(arguments),
        0 <= i < arguments.len(),
    ensures
        by_keyword(arguments).contains_key(arguments[i].0@),
        by_keyword(arguments)[arguments[i].0@] == arguments[i].1,
{
    assert(is_for(arguments, i, arguments[i].0@));
}

impl<E> View for ArgumentList<E> {
    type V = Map<Seq<char>, Expr<E>>;

    /// The arguments by keyword.
    closed spec fn view(&self) -> Map<Seq<char>, Expr<E>> {
        by_keyword(self.arguments@)
    }
}

impl<E> ArgumentList<E> {
    /// A list never holds two arguments for one keyword.
    #[verifier::type_invariant]
    spec fn valid(self) -> bool {
        distinct(self.arguments@)
    }

    /// A list without arguments.
    pub fn new() -> (list: ArgumentList<E>)
        ensures
            list@ == Map::<Seq<char>, Expr<E>>::empty(),
    {
        let list = ArgumentList { arguments: Vec::new() };
        assert(list@ =~= Map::<Seq<char>, Expr<E>>::empty());
        list
    }

    /// The list with `argument` for `keyword`, in place of the one that it has for it.
    pub fn with(self, keyword: &str, argument: Expr<E>) -> (list: ArgumentList<E>)
        ensures
            list@ == self@.insert(keyword@, argument),
    {
        let (_, rest) = self.optional(keyword);
        proof {
            use_type_invariant(&rest);
        }
        let ghost before = rest.arguments@;
        let mut arguments = rest.arguments;
        arguments.push((keyword.to_string(), argument));
        proof {
            let after = arguments@;
            let map = self@.insert(keyword@, argument);
            assert forall|i: int| 0 <= i < before.len() implies before[i].0@ != keyword@
                && map.contains_key((#[trigger] after[i]).0@) && map[after[i].0@]
                == after[i].1 by {
                lemma_argument(before, i);
            }
            assert forall|key: Seq<char>| #[trigger] map.contains_key(key) implies exists|i: int|
                is_for(after, i, key) by {
                if key == keyword@ {
                    assert(is_for(after, before.len() as int, key));
                } else {
                    assert(by_keyword(before).contains_key(key));
                    let i = choose|i: int| is_for(before, i, key);
                    assert(is_for(after, i, key));
                }
            }
            lemma_by_keyword(after, map);
        }
        ArgumentList { arguments }
    }

    /// The argument for `keyword`, if there is one, and the list without it.
    pub fn optional(self, keyword: &str) -> (result: (Option<Expr<E>>, ArgumentList<E>))
        ensures
            result.0 == if self@.contains_key(keyword@) {
                Some(self@[keyword@])
            } else {
                None
            },
            result.1@ == self@.remove(keyword@),
    {
        proof {
            use_type_invariant(&self);
        }
        let ghost before = self.arguments@;
        let sought = keyword.to_string();
        let mut arguments = self.arguments;
        let mut i: usize = 0;
        while i < arguments.len()
            invariant
                i <= arguments@.len(),
                arguments@ == before,
                before == self.arguments@,
                distinct(before),
                sought@ == keyword@,
                forall|j: int| 0 <= j < i ==> (#[trigger] arguments@[j]).0@ != keyword@,
            decreases arguments@.len() - i,
        {
            if arguments[i].0 == sought {
                let (_, argument) = arguments.remove(i);
                proof {
                    let after = arguments@;
                    let at = i as int;
                    let map = by_keyword(before).remove(keyword@);
                    lemma_argument(before, at);
                    assert forall|j: int| 0 <= j < after.len() implies map.contains_key(
                        (#[trigger] after[j]).0@,
                    ) && map[after[j].0@] == after[j].1 by {
                        let k = if j < at {
                            j
                        } else {
                            j + 1
                        };
                        assert(before[k] == after[j]);
                        assert(before[k].0@ != before[at].0@);
                        lemma_argument(before, k);
                    }
                    assert forall|key: Seq<char>| #[trigger] map.contains_key(key) implies exists|
                        j: int,
                    |
                        is_for(after, j, key) by {
                        assert(by_keyword(before).contains_key(key));
                        let k = choose|k: int| is_for(before, k, key);
                        assert(k != at);
                        let j = if k < at {
                            k
                        } else {
                            k - 1
                        };
                        assert(is_for(after, j, key));
                    }
                    lemma_by_keyword(after, map);
                }
                return (Some(argument), ArgumentList { arguments });
            }
            i = i + 1;
        }
        assert(!by_keyword(before).contains_key(keyword@)) by {
            if by_keyword(before).contains_key(keyword@) {
                let j = choose|j: int| is_for(before, j, keyword@);
                assert(arguments@[j].0@ == keyword@);
            }
        }
        assert(by_keyword(before) =~= by_keyword(before).remove(keyword@));
        (None, ArgumentList { arguments })
    }

    /// The argument for `keyword`, which has to be there, and the list without it.
    pub fn required(self, keyword: &str) -> (result: (Expr<E>, ArgumentList<E>))
        requires
            self@.contains_key(keyword@),
        ensures
            result.0 == self@[keyword@],
            result.1@ == self@.remove(keyword@),
    {
        let (argument, rest) = self.optional(keyword);
        (argument.unwrap(), rest)
    }
}

} // verus!
