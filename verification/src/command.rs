//! The command registry: named handlers, registered once at startup and
//! looked up by the dispatch loop that runs them.

use vstd::prelude::*;
use crate::parser::{assoc_get, assoc_set};

verus! {

/// The keyed views of a handler table.
pub open spec fn reg_views<H>(s: Seq<(String, H)>) -> Seq<(Seq<char>, H)> {
    s.map_values(|p: (String, H)| (p.0@, p.1))
}

/// Maps command names to handlers: one handler per name, and a later
/// registration under the same name replaces the earlier one.
pub struct CommandRegistry<H> {
    pub commands: Vec<(String, H)>,
}

impl<H> CommandRegistry<H> {
    pub fn new() -> (r: Self)
        ensures
            r.commands@.len() == 0,
    {
        CommandRegistry { commands: Vec::new() }
    }

    /// Registers a handler under a name, replacing any earlier handler of
    /// that name.
    pub fn register(&mut self, command_name: String, handler: H)
        ensures
            reg_views(final(self).commands@) == assoc_set(
                reg_views(old(self).commands@),
                command_name@,
                handler,
            ),
    {
        let ghost olds = reg_views(old(self).commands@);
        let mut i: usize = 0;
        while i < self.commands.len()
            invariant_except_break
                i <= self.commands@.len(),
                self.commands@ == old(self).commands@,
                forall|j: int| 0 <= j < i ==> (#[trigger] reg_views(self.commands@)[j]).0
                    != command_name@,
            ensures
                i <= self.commands@.len(),
                self.commands@ == old(self).commands@,
                forall|j: int| 0 <= j < i ==> (#[trigger] reg_views(self.commands@)[j]).0
                    != command_name@,
                i < self.commands@.len() ==> reg_views(self.commands@)[i as int].0
                    == command_name@,
            decreases self.commands@.len() - i,
        {
            if self.commands[i].0 == command_name {
                break ;
            }
            i = i + 1;
        }
        if i < self.commands.len() {
            proof {
                crate::parser::lemma_assoc_set_found(olds, command_name@, handler, i as int);
            }
            self.commands.set(i, (command_name, handler));
            proof {
                assert(reg_views(self.commands@) =~= olds.update(
                    i as int,
                    (command_name@, handler),
                ));
            }
        } else {
            proof {
                crate::parser::lemma_assoc_set_new(olds, command_name@, handler);
            }
            self.commands.push((command_name, handler));
            proof {
                assert(reg_views(self.commands@) =~= olds.push((command_name@, handler)));
            }
        }
    }

    /// Finds the index of the handler registered under a name.
    pub fn find(&self, name: &String) -> (r: Option<usize>)
        ensures
            match r {
                Some(i) => {
                    &&& i < self.commands@.len()
                    &&& assoc_get(reg_views(self.commands@), name@) == Some(
                        self.commands@[i as int].1,
                    )
                },
                None => assoc_get(reg_views(self.commands@), name@) is None,
            },
    {
        let mut i: usize = 0;
        while i < self.commands.len()
            invariant_except_break
                i <= self.commands@.len(),
                forall|j: int| 0 <= j < i ==> (#[trigger] reg_views(self.commands@)[j]).0
                    != name@,
            ensures
                i <= self.commands@.len(),
                forall|j: int| 0 <= j < i ==> (#[trigger] reg_views(self.commands@)[j]).0
                    != name@,
                i < self.commands@.len() ==> reg_views(self.commands@)[i as int].0 == name@,
            decreases self.commands@.len() - i,
        {
            if self.commands[i].0 == *name {
                break ;
            }
            i = i + 1;
        }
        if i < self.commands.len() {
            proof {
                crate::parser::lemma_assoc_get_found(reg_views(self.commands@), name@, i as int);
            }
            Some(i)
        } else {
            proof {
                crate::parser::lemma_assoc_get_none(reg_views(self.commands@), name@);
            }
            None
        }
    }
}

} // verus!
