//! Generation of front-end type bindings: types register a descriptor, and
//! the group renders one file per descriptor plus an index that re-exports
//! them, in registration order.

use vstd::prelude::*;
use vstd::string::StringExecFns;

verus! {

/// The collected descriptors: one (file name, content) pair per registered
/// type.
pub struct DescriptorManager {
    pub descriptors: Vec<(String, String)>,
}

impl DescriptorManager {
    pub fn new() -> (r: Self)
        ensures
            r.descriptors@.len() == 0,
    {
        DescriptorManager { descriptors: Vec::new() }
    }

    /// Registers one rendered descriptor.
    pub fn add_descriptor(&mut self, file_name: String, content: String)
        ensures
            final(self).descriptors@ == old(self).descriptors@.push((file_name, content)),
    {
        self.descriptors.push((file_name, content));
    }
}

/// A type that can describe itself to the binding generator.  Implementors
/// live outside this crate, beside their own types.
pub trait TS {
    fn register(manager: &mut DescriptorManager);
}

/// One re-export line of the index: `export * from './<name>'` and a line
/// break.
pub open spec fn spec_export_line(name: Seq<char>) -> Seq<char> {
    "export * from './"@ + name + "'\n"@
}

/// The index content over the first `n` descriptors, one re-export line per
/// descriptor in registration order.
pub open spec fn spec_index_content(ds: Seq<(String, String)>, n: int) -> Seq<char>
    decreases n,
{
    if n <= 0 {
        Seq::empty()
    } else {
        spec_index_content(ds, n - 1) + spec_export_line(ds[n - 1].0@)
    }
}

/// A group of types whose bindings are generated together.
pub struct FileGroup {
    pub manager: DescriptorManager,
}

impl FileGroup {
    pub fn new() -> (r: Self)
        ensures
            r.manager.descriptors@.len() == 0,
    {
        FileGroup { manager: DescriptorManager::new() }
    }

    /// Registers a type's descriptor with the group.
    pub fn add<T: TS>(&mut self) {
        T::register(&mut self.manager);
    }

    /// The files to write: every descriptor under its name with the `.ts`
    /// suffix and, when asked, an index named `index.ts` re-exporting each
    /// file, one line per descriptor in registration order.
    pub fn gen_entries(self, index_file: bool) -> (r: Vec<(String, String)>)
        ensures
            r@.len() == self.manager.descriptors@.len() + (if index_file {
                1int
            } else {
                0
            }),
            forall|i: int|
                0 <= i < self.manager.descriptors@.len() ==> (#[trigger] r@[i]).0@
                    == self.manager.descriptors@[i].0@ + ".ts"@ && r@[i].1@
                    == self.manager.descriptors@[i].1@,
            index_file ==> r@.last().0@ == "index.ts"@ && r@.last().1@ == spec_index_content(
                self.manager.descriptors@,
                self.manager.descriptors@.len() as int,
            ),
    {
        proof {
            reveal_strlit(".ts");
        }
        let mut out: Vec<(String, String)> = Vec::new();
        let n = self.manager.descriptors.len();
        let mut i: usize = 0;
        let mut index_content = String::new();
        proof {
            reveal_strlit("export * from './");
            reveal_strlit("'\n");
        }
        while i < n
            invariant
                i <= n,
                n == self.manager.descriptors@.len(),
                out@.len() == i,
                forall|j: int|
                    0 <= j < i ==> (#[trigger] out@[j]).0@ == self.manager.descriptors@[j].0@
                        + ".ts"@ && out@[j].1@ == self.manager.descriptors@[j].1@,
                index_content@ == spec_index_content(self.manager.descriptors@, i as int),
            decreases n - i,
        {
            let name = crate::id_manager::clone_string(&self.manager.descriptors[i].0);
            let content = crate::id_manager::clone_string(&self.manager.descriptors[i].1);
            let file_name = name.concat(".ts");
            index_content.append("export * from './");
            index_content.append(self.manager.descriptors[i].0.as_str());
            index_content.append("'\n");
            out.push((file_name, content));
            i = i + 1;
        }
        if index_file {
            let mut index_name = String::new();
            proof {
                reveal_strlit("index.ts");
            }
            index_name.append("index.ts");
            out.push((index_name, index_content));
        }
        out
    }
}

} // verus!
