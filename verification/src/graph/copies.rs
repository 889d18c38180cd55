//! Copies of property values.

use vstd::prelude::*;

use crate::graph::property::Property;
use crate::graph::property::PropertyMap;

verus! {

impl Property {
    /// A value like this one.
    fn copied(&self) -> (r: Property)
        ensures
            r.model() == self.model(),
        decreases self,
    {
        match self {
            Property::Null => Property::Null,
            Property::Integer(v) => Property::Integer(*v),
            Property::Float(v) => Property::Float(*v),
            Property::String(s) => Property::String(s.as_str().to_owned()),
            Property::Boolean(b) => Property::Boolean(*b),
            Property::Date(v) => Property::Date(*v),
            Property::Duration(v) => Property::Duration(*v),
            Property::Point { srid, x, y, z } => Property::Point { srid: *srid, x: *x, y: *y, z: *z },
            Property::List(items) => {
                let ghost models = self.model()->List_0;
                let mut out: Vec<Property> = Vec::new();
                let mut i: usize = 0;
                while i < items.len()
                    invariant
                        *self == Property::List(*items),
                        models == self.model()->List_0,
                        i <= items@.len(),
                        out@.len() == i,
                        forall|k: int| 0 <= k < i ==> (#[trigger] out@[k]).model() == items@[k].model(),
                    decreases items@.len() - i,
                {
                    let item = items[i].copied();
                    assert(models[i as int] == items@[i as int].model());
                    out.push(item);
                    i += 1;
                }
                let r = Property::List(out);
                assert(r.model()->List_0 =~= self.model()->List_0);
                r
            },
            Property::Dict(map) => {
                let ghost models = self.model()->Dict_0;
                let mut out: Vec<(String, Property)> = Vec::new();
                let mut i: usize = 0;
                while i < map.entries.len()
                    invariant
                        *self == Property::Dict(*map),
                        models == self.model()->Dict_0,
                        i <= map.entries@.len(),
                        out@.len() == i,
                        forall|k: int|
                            0 <= k < i ==> (#[trigger] out@[k]).0@ == map.entries@[k].0@
                                && out@[k].1.model() == map.entries@[k].1.model(),
                    decreases map.entries@.len() - i,
                {
                    let value = map.entries[i].1.copied();
                    out.push((map.entries[i].0.as_str().to_owned(), value));
                    i += 1;
                }
                let r = Property::Dict(PropertyMap { entries: out });
                assert(r.model()->Dict_0 =~= self.model()->Dict_0);
                r
            },
        }
    }
}

impl Clone for Property {
    fn clone(&self) -> (r: Self)
        ensures
            r.model() == self.model(),
    {
        self.copied()
    }
}

impl Clone for PropertyMap {
    fn clone(&self) -> (r: Self)
        ensures
            r.list() == self.list(),
            r@ == self@,
            self.wf() ==> r.wf(),
    {
        let mut entries: Vec<(String, Property)> = Vec::new();
        let mut i: usize = 0;
        while i < self.entries.len()
            invariant
                i <= self.entries@.len(),
                entries@.len() == i,
                forall|k: int|
                    0 <= k < i ==> (#[trigger] entries@[k]).0@ == self.entries@[k].0@
                        && entries@[k].1.model() == self.entries@[k].1.model(),
            decreases self.entries@.len() - i,
        {
            entries.push((self.entries[i].0.as_str().to_owned(), self.entries[i].1.copied()));
            i += 1;
        }
        let r = PropertyMap { entries };
        assert(r.list() =~= self.list());
        r
    }
}

} // verus!
