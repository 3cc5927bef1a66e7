//! The project under analysis: its modules, and the definitions that the
//! names in them resolve to.

use vstd::prelude::*;
use crate::ast::{Stmt, StmtFunctionDef};
use crate::call_stack::Frame;
use crate::module::{collect_module, listed_functions};
use crate::text::{FileId, TextRange};

verus! {

/// What kind of binding a definition is, as far as the analysis tells them
/// apart.
pub enum DefinitionKind {
    /// `target = value`. Where the value is a bare name, `value` holds the
    /// definitions that name resolves to, in resolution order.
    Assignment { value: Option<Vec<usize>> },
    /// A function, a class, or any other binding.
    Other,
}

/// A binding of a name: the file it stands in, the name it binds if it binds
/// one, and the full range of the statement that makes it.
pub struct Definition {
    pub file: FileId,
    pub name: Option<String>,
    pub range: TextRange,
    pub kind: DefinitionKind,
}

/// A name bound at the top level of a module, with its definitions.
pub struct GlobalSymbol {
    pub name: String,
    pub definitions: Vec<usize>,
}

/// A source file: its path, its dotted module name, whether it belongs to
/// the files the project includes, the names bound at its top level, and
/// its statements.
pub struct Module {
    pub path: String,
    pub name: String,
    pub included: bool,
    pub globals: Vec<GlobalSymbol>,
    pub body: Vec<Stmt>,
}

/// The modules of a project, and every definition that a name or attribute
/// in them resolves to. Names hold positions in `definitions`; definitions
/// hold positions in `modules`. A position outside its table stands for a
/// reference that could not be resolved.
pub struct Project {
    pub modules: Vec<Module>,
    pub definitions: Vec<Definition>,
}

/// The frame under which the function `func` of the file at `path` goes on
/// the call stack: the path and the name of the function.
pub open spec fn function_frame(path: Seq<char>, func: StmtFunctionDef) -> Frame {
    (path, func.name@)
}

/// How many of the first `n` of the functions `funcs` of the file at `path`
/// have a frame that is not on `stack`.
pub open spec fn unvisited_functions(
    path: Seq<char>,
    funcs: Seq<StmtFunctionDef>,
    stack: Seq<Frame>,
    n: nat,
) -> nat
    decreases n,
{
    if n == 0 || n > funcs.len() {
        0
    } else {
        unvisited_functions(path, funcs, stack, (n - 1) as nat) + if stack.contains(
            function_frame(path, funcs[n - 1]),
        ) {
            0nat
        } else {
            1nat
        }
    }
}

/// A frame more on the stack leaves no more functions unvisited.
pub proof fn lemma_functions_keep(
    path: Seq<char>,
    funcs: Seq<StmtFunctionDef>,
    stack: Seq<Frame>,
    f: Frame,
    n: nat,
)
    ensures
        unvisited_functions(path, funcs, stack.push(f), n) <= unvisited_functions(
            path,
            funcs,
            stack,
            n,
        ),
    decreases n,
{
    if n > 0 && n <= funcs.len() {
        lemma_functions_keep(path, funcs, stack, f, (n - 1) as nat);
        let g = function_frame(path, funcs[n - 1]);
        if stack.contains(g) {
            let i = choose|i: int| 0 <= i < stack.len() && stack[i] == g;
            assert(stack.push(f)[i] == g);
        }
    }
}

/// Pushing the frame of a function that is not yet on the stack leaves fewer
/// functions unvisited.
pub proof fn lemma_functions_decrease(
    path: Seq<char>,
    funcs: Seq<StmtFunctionDef>,
    stack: Seq<Frame>,
    j: int,
    n: nat,
)
    requires
        0 <= j < n <= funcs.len(),
        !stack.contains(function_frame(path, funcs[j])),
    ensures
        unvisited_functions(path, funcs, stack.push(function_frame(path, funcs[j])), n)
            < unvisited_functions(path, funcs, stack, n),
    decreases n,
{
    let f = function_frame(path, funcs[j]);
    if j == n - 1 {
        lemma_functions_keep(path, funcs, stack, f, (n - 1) as nat);
        assert(stack.push(f)[stack.len() as int] == f);
    } else {
        lemma_functions_decrease(path, funcs, stack, j, (n - 1) as nat);
        let g = function_frame(path, funcs[n - 1]);
        if stack.contains(g) {
            let i = choose|i: int| 0 <= i < stack.len() && stack[i] == g;
            assert(stack.push(f)[i] == g);
        }
    }
}

impl Project {
    /// The frame under which the definition at position `d` goes on the call
    /// stack: the path of its file and its name. A definition without a
    /// name, or outside the tables, has none.
    pub open spec fn frame_of(&self, d: int) -> Option<Frame> {
        if 0 <= d < self.definitions@.len() {
            let def = self.definitions@[d];
            if def.file.index < self.modules@.len() {
                match def.name {
                    Some(name) => Some((self.modules@[def.file.index as int].path@, name@)),
                    None => None,
                }
            } else {
                None
            }
        } else {
            None
        }
    }

    /// How many of the first `n` definitions have a frame that is not on
    /// `stack`.
    pub open spec fn unvisited_among(&self, stack: Seq<Frame>, n: nat) -> nat
        decreases n,
    {
        if n == 0 {
            0
        } else {
            let rest = self.unvisited_among(stack, (n - 1) as nat);
            match self.frame_of(n - 1) {
                Some(f) => if stack.contains(f) {
                    rest
                } else {
                    rest + 1
                },
                None => rest,
            }
        }
    }

    /// The functions of the module at position `m`, as a walk over it lists
    /// them.
    pub open spec fn functions_of(&self, m: int) -> Seq<StmtFunctionDef> {
        let units = collect_module(self.modules@[m].body@).functions;
        listed_functions(units, units.len())
    }

    /// How many functions of the first `m` modules have a frame that is not
    /// on `stack`.
    pub open spec fn unvisited_bodies_among(&self, stack: Seq<Frame>, m: nat) -> nat
        decreases m,
    {
        if m == 0 || m > self.modules@.len() {
            0
        } else {
            self.unvisited_bodies_among(stack, (m - 1) as nat) + unvisited_functions(
                self.modules@[m - 1].path@,
                self.functions_of(m - 1),
                stack,
                self.functions_of(m - 1).len(),
            )
        }
    }

    /// How many definitions and how many functions have a frame that is not
    /// on `stack`. Every call that the analysis follows puts such a frame on
    /// the stack and so makes this smaller, which is why it ends.
    pub open spec fn unvisited(&self, stack: Seq<Frame>) -> nat {
        self.unvisited_among(stack, self.definitions@.len()) + self.unvisited_bodies_among(
            stack,
            self.modules@.len(),
        )
    }

    /// A frame more on the stack leaves no more functions unvisited.
    pub proof fn lemma_bodies_keep(&self, stack: Seq<Frame>, f: Frame, m: nat)
        ensures
            self.unvisited_bodies_among(stack.push(f), m) <= self.unvisited_bodies_among(stack, m),
        decreases m,
    {
        if m > 0 && m <= self.modules@.len() {
            self.lemma_bodies_keep(stack, f, (m - 1) as nat);
            lemma_functions_keep(
                self.modules@[m - 1].path@,
                self.functions_of(m - 1),
                stack,
                f,
                self.functions_of(m - 1).len(),
            );
        }
    }

    /// Pushing the frame of a function of a module leaves fewer functions
    /// unvisited, if the frame is not yet on the stack.
    pub proof fn lemma_bodies_decrease(&self, stack: Seq<Frame>, file: int, j: int, m: nat)
        requires
            0 <= file < m <= self.modules@.len(),
            0 <= j < self.functions_of(file).len(),
            !stack.contains(function_frame(self.modules@[file].path@, self.functions_of(file)[j])),
        ensures
            self.unvisited_bodies_among(
                stack.push(function_frame(self.modules@[file].path@, self.functions_of(file)[j])),
                m,
            ) < self.unvisited_bodies_among(stack, m),
        decreases m,
    {
        let f = function_frame(self.modules@[file].path@, self.functions_of(file)[j]);
        if file == m - 1 {
            self.lemma_bodies_keep(stack, f, (m - 1) as nat);
            lemma_functions_decrease(
                self.modules@[file].path@,
                self.functions_of(file),
                stack,
                j,
                self.functions_of(file).len(),
            );
        } else {
            self.lemma_bodies_decrease(stack, file, j, (m - 1) as nat);
            lemma_functions_keep(
                self.modules@[m - 1].path@,
                self.functions_of(m - 1),
                stack,
                f,
                self.functions_of(m - 1).len(),
            );
        }
    }

    /// A frame more on the stack leaves no more unvisited.
    pub proof fn lemma_frame_keeps(&self, stack: Seq<Frame>, f: Frame)
        ensures
            self.unvisited(stack.push(f)) <= self.unvisited(stack),
    {
        self.lemma_push_keeps(stack, f, self.definitions@.len());
        self.lemma_bodies_keep(stack, f, self.modules@.len());
    }

    /// Following a call into a definition whose frame is not yet on the
    /// stack leaves less unvisited.
    pub proof fn lemma_definition_decreases(&self, stack: Seq<Frame>, d: int)
        requires
            self.frame_of(d) is Some,
            !stack.contains(self.frame_of(d).unwrap()),
        ensures
            self.unvisited(stack.push(self.frame_of(d).unwrap())) < self.unvisited(stack),
    {
        self.lemma_push_decreases(stack, d, self.definitions@.len());
        self.lemma_bodies_keep(stack, self.frame_of(d).unwrap(), self.modules@.len());
    }

    /// Analysing a function of a module whose frame is not yet on the stack
    /// leaves less unvisited.
    pub proof fn lemma_body_decreases(&self, stack: Seq<Frame>, file: FileId, func: StmtFunctionDef)
        requires
            file.index < self.modules@.len(),
            self.functions_of(file.index as int).contains(func),
            !stack.contains(function_frame(self.modules@[file.index as int].path@, func)),
        ensures
            self.unvisited(
                stack.push(function_frame(self.modules@[file.index as int].path@, func)),
            ) < self.unvisited(stack),
    {
        let funcs = self.functions_of(file.index as int);
        let j = choose|j: int| 0 <= j < funcs.len() && funcs[j] == func;
        self.lemma_bodies_decrease(stack, file.index as int, j, self.modules@.len());
        self.lemma_push_keeps(
            stack,
            function_frame(self.modules@[file.index as int].path@, func),
            self.definitions@.len(),
        );
    }

    /// A frame more on the stack leaves no more definitions unvisited.
    pub proof fn lemma_push_keeps(&self, stack: Seq<Frame>, f: Frame, n: nat)
        ensures
            self.unvisited_among(stack.push(f), n) <= self.unvisited_among(stack, n),
        decreases n,
    {
        if n > 0 {
            self.lemma_push_keeps(stack, f, (n - 1) as nat);
            match self.frame_of(n - 1) {
                Some(g) => {
                    if stack.contains(g) {
                        let i = choose|i: int| 0 <= i < stack.len() && stack[i] == g;
                        assert(stack.push(f)[i] == g);
                    }
                },
                None => {},
            }
        }
    }

    /// Pushing the frame of a definition that is not yet on the stack leaves
    /// fewer definitions unvisited.
    pub proof fn lemma_push_decreases(&self, stack: Seq<Frame>, d: int, n: nat)
        requires
            0 <= d < n <= self.definitions@.len(),
            self.frame_of(d) is Some,
            !stack.contains(self.frame_of(d).unwrap()),
        ensures
            self.unvisited_among(stack.push(self.frame_of(d).unwrap()), n)
                < self.unvisited_among(stack, n),
        decreases n,
    {
        let f = self.frame_of(d).unwrap();
        if d == n - 1 {
            self.lemma_push_keeps(stack, f, (n - 1) as nat);
            assert(stack.push(f)[stack.len() as int] == f);
        } else {
            self.lemma_push_decreases(stack, d, (n - 1) as nat);
            match self.frame_of(n - 1) {
                Some(g) => {
                    if stack.contains(g) {
                        let i = choose|i: int| 0 <= i < stack.len() && stack[i] == g;
                        assert(stack.push(f)[i] == g);
                    }
                },
                None => {},
            }
        }
    }

    /// The module of `file`, if the project has it.
    pub fn module(&self, file: FileId) -> (r: Option<&Module>)
        ensures
            r is Some == (file.index < self.modules@.len()),
            r matches Some(m) ==> *m == self.modules@[file.index as int],
    {
        if file.index < self.modules.len() {
            Some(&self.modules[file.index])
        } else {
            None
        }
    }

    /// The definition at position `d`, if the project has it.
    pub fn definition(&self, d: usize) -> (r: Option<&Definition>)
        ensures
            r is Some == (d < self.definitions@.len()),
            r matches Some(def) ==> *def == self.definitions@[d as int],
    {
        if d < self.definitions.len() {
            Some(&self.definitions[d])
        } else {
            None
        }
    }

    /// The frame of the definition at position `d`, if it has one.
    pub fn frame(&self, d: usize) -> (r: Option<(String, String)>)
        ensures
            r is Some == self.frame_of(d as int) is Some,
            r matches Some(f) ==> (f.0@, f.1@) == self.frame_of(d as int).unwrap(),
    {
        match self.definition(d) {
            Some(def) => match self.module(def.file) {
                Some(module) => match &def.name {
                    Some(name) => Some((module.path.clone(), name.clone())),
                    None => None,
                },
                None => None,
            },
            None => None,
        }
    }
}

} // verus!
