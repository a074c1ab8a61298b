//! The fixed set of marker traits whose implementations are worth a tag.

use vstd::prelude::*;

verus! {

/// The views of a sequence of strings.
pub open spec fn strings_view(v: Seq<String>) -> Seq<Seq<char>> {
    v.map_values(|s: String| s@)
}

/// A set of trait names, tested by exact equality of the trait's path.
#[derive(Debug)]
pub struct MarkerSet {
    names: Vec<String>,
}

impl View for MarkerSet {
    type V = Seq<Seq<char>>;

    closed spec fn view(&self) -> Self::V {
        strings_view(self.names@)
    }
}

/// The traits that the engine's documentation tags.
pub open spec fn is_engine_marker(s: Seq<char>) -> bool {
    ||| s == "Plugin"@
    ||| s == "PluginGroup"@
    ||| s == "Component"@
    ||| s == "Resource"@
    ||| s == "Asset"@
    ||| s == "Event"@
    ||| s == "ScheduleLabel"@
    ||| s == "SystemParam"@
    ||| s == "SystemSet"@
}

impl MarkerSet {
    /// A set of the given names.
    pub fn new(names: Vec<String>) -> (r: MarkerSet)
        ensures
            r@ == strings_view(names@),
    {
        MarkerSet { names }
    }

    /// The marker traits of the engine: `Plugin`, `PluginGroup`,
    /// `Component`, `Resource`, `Asset`, `Event`, `ScheduleLabel`,
    /// `SystemSet` and `SystemParam`.
    pub fn engine() -> (r: MarkerSet)
        ensures
            forall|s: Seq<char>| r@.contains(s) <==> is_engine_marker(s),
    {
        let mut names: Vec<String> = Vec::new();
        names.push("Plugin".to_owned());
        names.push("PluginGroup".to_owned());
        names.push("Component".to_owned());
        names.push("Resource".to_owned());
        names.push("Asset".to_owned());
        names.push("Event".to_owned());
        names.push("ScheduleLabel".to_owned());
        names.push("SystemParam".to_owned());
        names.push("SystemSet".to_owned());
        let r = MarkerSet { names };
        proof {
            let v = r@;
            assert forall|s: Seq<char>| v.contains(s) <==> is_engine_marker(s) by {
                if is_engine_marker(s) {
                    if s == "Plugin"@ {
                        assert(v[0] == s);
                    } else if s == "PluginGroup"@ {
                        assert(v[1] == s);
                    } else if s == "Component"@ {
                        assert(v[2] == s);
                    } else if s == "Resource"@ {
                        assert(v[3] == s);
                    } else if s == "Asset"@ {
                        assert(v[4] == s);
                    } else if s == "Event"@ {
                        assert(v[5] == s);
                    } else if s == "ScheduleLabel"@ {
                        assert(v[6] == s);
                    } else if s == "SystemParam"@ {
                        assert(v[7] == s);
                    } else {
                        assert(v[8] == s);
                    }
                }
            }
        }
        r
    }

    /// Whether `name` is one of the set's names.
    pub fn contains(&self, name: &String) -> (r: bool)
        ensures
            r == self@.contains(name@),
    {
        let mut i: usize = 0;
        while i < self.names.len()
            invariant
                i <= self.names@.len(),
                forall|j: int| 0 <= j < i ==> self.names@[j]@ != name@,
            decreases self.names@.len() - i,
        {
            if self.names[i] == *name {
                proof {
                    assert(self@[i as int] == name@);
                }
                return true;
            }
            i = i + 1;
        }
        proof {
            assert forall|j: int| 0 <= j < self@.len() implies self@[j] != name@ by {
                assert(self@[j] == self.names@[j]@);
            }
        }
        false
    }
}

} // verus!
