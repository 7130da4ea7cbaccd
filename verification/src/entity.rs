//! The kinds of ambient life in the world and the dialogue of the friendly
//! cats.

use vstd::prelude::*;

verus! {

#[derive(Clone, Copy, PartialEq, Eq, Structural, Debug)]
pub enum EntityKind {
    /// A small round ground critter ("puffkit") that wanders and hops.
    Critter,
    /// A daytime butterfly that flutters above the meadow.
    Butterfly,
    /// A nighttime firefly that drifts and glows.
    Firefly,
    /// A friendly sentient cat NPC you can talk to.
    Friend,
}

/// Dialogue data for a friendly cat NPC: its name, its lines, and the next
/// line to say.
#[derive(Clone, Debug)]
pub struct Npc {
    pub name: &'static str,
    pub lines: Vec<&'static str>,
    pub line: usize,
}

/// Number of friendly cats in the cast.
pub const FRIEND_COUNT: usize = 3;

/// The name of friend `i` of the cast.
pub open spec fn friend_name(i: int) -> Seq<char> {
    if i == 0 {
        "MITTENS"@
    } else if i == 1 {
        "BISCUIT"@
    } else {
        "CLOVER"@
    }
}

/// The lines of friend `i` of the cast.
pub open spec fn friend_lines(i: int) -> Seq<Seq<char>> {
    if i == 0 {
        seq!["OH, HELLO TRAVELLER!"@, "THE BLOSSOMS ARE LOVELY TODAY."@, "MIND THE PUDDLES, HEE HEE!"@]
    } else if i == 1 {
        seq!["PURR... WELCOME TO THE VALLEY."@, "I AM BUILDING A COSY HOME NEARBY."@, "HAVE YOU TRIED THE SWEET BERRIES?"@]
    } else {
        seq!["MEOW! LOST AGAIN, FRIEND?"@, "LANTERNS KEEP THE NIGHT FRIENDLY."@, "SAFE TRAVELS, LITTLE ONE."@]
    }
}

impl Npc {
    /// Friend `i` of the cosy cast (Mittens, Biscuit, Clover), starting at
    /// their first line.
    pub fn friend(i: usize) -> (r: Npc)
        requires
            i < FRIEND_COUNT,
        ensures
            r.name@ == friend_name(i as int),
            r.lines@.len() == 3,
            forall|k: int| 0 <= k < 3 ==> (#[trigger] r.lines@[k])@ == friend_lines(i as int)[k],
            r.line == 0,
    {
        if i == 0 {
            Npc {
                name: "MITTENS",
                lines: vec!["OH, HELLO TRAVELLER!", "THE BLOSSOMS ARE LOVELY TODAY.", "MIND THE PUDDLES, HEE HEE!"],
                line: 0,
            }
        } else if i == 1 {
            Npc {
                name: "BISCUIT",
                lines: vec![
                    "PURR... WELCOME TO THE VALLEY.",
                    "I AM BUILDING A COSY HOME NEARBY.",
                    "HAVE YOU TRIED THE SWEET BERRIES?",
                ],
                line: 0,
            }
        } else {
            Npc {
                name: "CLOVER",
                lines: vec!["MEOW! LOST AGAIN, FRIEND?", "LANTERNS KEEP THE NIGHT FRIENDLY.", "SAFE TRAVELS, LITTLE ONE."],
                line: 0,
            }
        }
    }

    /// Say the next line: the name and the line, cycling through the lines.
    pub fn speak(&mut self) -> (r: (String, String))
        requires
            old(self).lines@.len() > 0,
        ensures
            r.0@ == old(self).name@,
            r.1@ == old(self).lines@[(old(self).line as int) % (old(self).lines@.len() as int)]@,
            final(self).line == old(self).line.wrapping_add(1),
            final(self).name == old(self).name,
            final(self).lines@ == old(self).lines@,
    {
        let line = self.lines[self.line % self.lines.len()].to_owned();
        let name = self.name.to_owned();
        self.line = self.line.wrapping_add(1);
        (name, line)
    }
}

} // verus!
