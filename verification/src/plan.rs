//! Which files the extraction of a module writes.

use vstd::prelude::*;

use crate::format::{Loader, Module, ModuleView};
use crate::paths;
use crate::text;

verus! {

/// What to extract.
#[derive(Debug, Clone, Copy)]
pub struct ExtractOptions {
    /// Only extract JavaScript files.
    pub js_only: bool,
    /// Decode binary sourcemaps to standard JSON format.
    pub decode_sourcemaps: bool,
    /// Extract bytecode blobs.
    pub extract_bytecode: bool,
    /// Extract module info blobs.
    pub extract_module_info: bool,
}

/// What a file that extraction writes holds.
#[derive(Debug, Clone, Copy, PartialEq, Eq, Structural)]
pub enum OutputKind {
    /// The contents of the module.
    Contents,
    /// The sourcemap as stored.
    RawSourcemap,
    /// The sourcemap in standard JSON format.
    DecodedSourcemap,
    /// The bytecode as stored.
    Bytecode,
    /// The module info as stored.
    ModuleInfo,
}

/// A file that extraction writes: its path below the output directory, directory by directory,
/// and what it holds.
#[derive(Debug)]
pub struct PlannedFile {
    pub path: Vec<String>,
    pub kind: OutputKind,
}

/// What extraction does with a module.
#[derive(Debug)]
pub enum ModulePlan {
    /// Nothing: it is not among the files asked for.
    Skipped,
    /// Nothing: its name does not lead into the output directory.
    Unsafe,
    /// It writes these files, in order.
    Files(Vec<PlannedFile>),
}

/// A [`ModulePlan`] over mathematical values.
pub enum PlanView {
    Skipped,
    Unsafe,
    Files(Seq<(Seq<Seq<char>>, OutputKind)>),
}

/// The files over mathematical values.
pub open spec fn file_views(files: Seq<PlannedFile>) -> Seq<(Seq<Seq<char>>, OutputKind)> {
    files.map_values(|file: PlannedFile| (paths::texts(file.path@), file.kind))
}

impl View for ModulePlan {
    type V = PlanView;

    open spec fn view(&self) -> PlanView {
        match *self {
            ModulePlan::Skipped => PlanView::Skipped,
            ModulePlan::Unsafe => PlanView::Unsafe,
            ModulePlan::Files(files) => PlanView::Files(file_views(files@)),
        }
    }
}

/// Whether a module is JavaScript or TypeScript, by its loader or by its name.
pub open spec fn is_script(module: ModuleView) -> bool {
    let kind = crate::format::kind_of(module.loader, module.name);
    module.loader.reads_javascript() || kind == "JavaScript"@ || kind == "TypeScript"@
}

/// The path of a file next to the one at `path`, with `suffix` behind its name.
pub open spec fn beside(path: Seq<Seq<char>>, suffix: Seq<char>) -> Seq<Seq<char>> {
    path.drop_last().push(path.last() + suffix)
}

/// One file if it is to be written, and else none.
pub open spec fn file_if(present: bool, path: Seq<Seq<char>>, kind: OutputKind) -> Seq<
    (Seq<Seq<char>>, OutputKind),
> {
    if present {
        seq![(path, kind)]
    } else {
        Seq::empty()
    }
}

/// The files that the extraction of a module to `path` writes: its contents, and beside them
/// its sourcemap, its bytecode and its module info, as far as it has them and they are asked
/// for.
pub open spec fn files_of(module: ModuleView, options: ExtractOptions, path: Seq<Seq<char>>) -> Seq<
    (Seq<Seq<char>>, OutputKind),
> {
    file_if(true, path, OutputKind::Contents) + file_if(
        module.sourcemap is Some,
        beside(path, ".map"@),
        if options.decode_sourcemaps {
            OutputKind::DecodedSourcemap
        } else {
            OutputKind::RawSourcemap
        },
    ) + file_if(
        options.extract_bytecode && module.bytecode is Some,
        beside(path, ".bytecode"@),
        OutputKind::Bytecode,
    ) + file_if(
        options.extract_module_info && module.module_info is Some,
        beside(path, ".module_info"@),
        OutputKind::ModuleInfo,
    )
}

/// What extraction does with a module.
pub open spec fn plan_of(module: ModuleView, options: ExtractOptions) -> PlanView {
    if options.js_only && !is_script(module) {
        PlanView::Skipped
    } else {
        match paths::module_parts(module.name) {
            None => PlanView::Unsafe,
            Some(path) => PlanView::Files(files_of(module, options, path)),
        }
    }
}

/// Whether a module is JavaScript or TypeScript.
fn has_script(module: &Module) -> (yes: bool)
    ensures
        yes == is_script(module@),
{
    if module.loader.is_javascript() {
        return true;
    }
    let kind = module.file_type();
    text::same_text(kind, "JavaScript") || text::same_text(kind, "TypeScript")
}

/// A copy of `path` with `suffix` behind its last part.
pub fn path_beside(path: &Vec<String>, suffix: &str) -> (result: Vec<String>)
    requires
        path@.len() > 0,
    ensures
        paths::texts(result@) == beside(paths::texts(path@), suffix@),
{
    let mut result = copy_path(path);
    let ghost copied = result@;
    match result.pop() {
        Some(last) => {
            let mut name = last;
            text::push_text(&mut name, suffix);
            result.push(name);
        },
        None => {},
    }
    assert(paths::texts(copied) == paths::texts(path@));
    assert(paths::texts(result@) =~= beside(paths::texts(copied), suffix@));
    result
}

/// A copy of `path`.
fn copy_path(path: &Vec<String>) -> (result: Vec<String>)
    ensures
        paths::texts(result@) == paths::texts(path@),
{
    let mut result: Vec<String> = Vec::new();
    let mut i: usize = 0;
    while i < path.len()
        invariant
            i <= path@.len(),
            result@.len() == i,
            forall|j: int| 0 <= j < i ==> result@[j]@ == path@[j]@,
        decreases path@.len() - i,
    {
        result.push(path[i].clone());
        i = i + 1;
    }
    assert(paths::texts(result@) =~= paths::texts(path@));
    result
}

/// Plans the extraction of a module.
pub fn plan_module(module: &Module, options: &ExtractOptions) -> (plan: ModulePlan)
    ensures
        plan@ == plan_of(module@, *options),
{
    if options.js_only && !has_script(module) {
        return ModulePlan::Skipped;
    }
    let path = match paths::output_relative_path(module.name.as_str()) {
        Some(path) => path,
        None => {
            return ModulePlan::Unsafe;
        },
    };
    proof {
        paths::module_stays_inside(module.name@);
    }
    let mut files: Vec<PlannedFile> = Vec::new();
    files.push(PlannedFile { path: copy_path(&path), kind: OutputKind::Contents });
    let ghost parts = paths::texts(path@);
    assert(file_views(files@) =~= file_if(true, parts, OutputKind::Contents));
    if module.sourcemap.is_some() {
        let kind: OutputKind = if options.decode_sourcemaps {
            OutputKind::DecodedSourcemap
        } else {
            OutputKind::RawSourcemap
        };
        push_beside(&mut files, &path, ".map", kind);
    }
    if options.extract_bytecode && module.bytecode.is_some() {
        push_beside(&mut files, &path, ".bytecode", OutputKind::Bytecode);
    }
    if options.extract_module_info && module.module_info.is_some() {
        push_beside(&mut files, &path, ".module_info", OutputKind::ModuleInfo);
    }
    assert(file_views(files@) =~= files_of(module@, *options, parts));
    ModulePlan::Files(files)
}

/// Plans one more file beside the one at `path`.
fn push_beside(files: &mut Vec<PlannedFile>, path: &Vec<String>, suffix: &str, kind: OutputKind)
    requires
        path@.len() > 0,
    ensures
        file_views(final(files)@) == file_views(old(files)@) + file_if(
            true,
            beside(paths::texts(path@), suffix@),
            kind,
        ),
{
    files.push(PlannedFile { path: path_beside(path, suffix), kind });
    assert(file_views(files@) =~= file_views(old(files)@) + file_if(
        true,
        beside(paths::texts(path@), suffix@),
        kind,
    ));
}

/// Every file that extraction writes lies below the output directory: each part of its path is
/// the plain name of something inside the directory before it.
pub proof fn files_stay_inside(module: ModuleView, options: ExtractOptions)
    ensures
        plan_of(module, options) matches PlanView::Files(files) ==> forall|k: int|
            #![trigger files[k]]
            0 <= k < files.len() ==> files[k].0.len() > 0 && paths::all_plain(files[k].0),
{
    paths::module_stays_inside(module.name);
    if let Some(path) = paths::module_parts(module.name) {
        lemma_beside_plain(path, ".map"@);
        lemma_beside_plain(path, ".bytecode"@);
        lemma_beside_plain(path, ".module_info"@);
    }
}

proof fn lemma_beside_plain(path: Seq<Seq<char>>, suffix: Seq<char>)
    requires
        path.len() > 0,
        paths::all_plain(path),
        suffix == ".map"@ || suffix == ".bytecode"@ || suffix == ".module_info"@,
    ensures
        beside(path, suffix).len() > 0,
        paths::all_plain(beside(path, suffix)),
{
    reveal_strlit(".map");
    reveal_strlit(".bytecode");
    reveal_strlit(".module_info");
    let longer = beside(path, suffix);
    let last = path[path.len() - 1];
    assert(paths::is_plain(last) && !last.contains('\\'));
    let name = last + suffix;
    assert(name.len() > 2);
    assert forall|i: int| 0 <= i < name.len() implies name[i] != '/' && name[i] != ':' && name[i]
        != '\\' by {
        if i < last.len() {
            assert(last.contains(last[i]));
        }
    }
    assert forall|i: int| 0 <= i < longer.len() implies paths::is_plain(#[trigger] longer[i])
        && !longer[i].contains('\\') by {
        if i < path.len() - 1 {
            assert(longer[i] == path[i]);
        }
    }
}

/// Whether a file with this kind of contents is among the files.
pub open spec fn writes(files: Seq<(Seq<Seq<char>>, OutputKind)>, kind: OutputKind) -> bool {
    exists|k: int| 0 <= k < files.len() && #[trigger] files[k].1 == kind
}

/// What stands behind the name of a module in the name of a file with this kind of contents.
pub open spec fn ending(kind: OutputKind) -> Seq<char> {
    match kind {
        OutputKind::Contents => Seq::empty(),
        OutputKind::RawSourcemap | OutputKind::DecodedSourcemap => ".map"@,
        OutputKind::Bytecode => ".bytecode"@,
        OutputKind::ModuleInfo => ".module_info"@,
    }
}

/// The place of a kind of contents in the order in which files are written.
pub open spec fn rank(kind: OutputKind) -> int {
    match kind {
        OutputKind::Contents => 0,
        OutputKind::RawSourcemap | OutputKind::DecodedSourcemap => 1,
        OutputKind::Bytecode => 2,
        OutputKind::ModuleInfo => 3,
    }
}

/// Which files extraction writes for a module that it does not skip. The contents always come
/// first. A sourcemap is written where the module has one, decoded if that is asked for and as
/// stored if not. Bytecode and module info are each written exactly if they are asked for and the
/// module has them, and asking for one has no effect on the other. There is one file of a kind at
/// most, in a fixed order, and all stand in one directory, under the name of the module and an
/// ending for the kind.
pub proof fn planned_files(module: ModuleView, options: ExtractOptions)
    ensures
        plan_of(module, options) matches PlanView::Files(files) ==> {
            &&& files.len() > 0 && files[0].1 == OutputKind::Contents
            &&& paths::module_parts(module.name) == Some(files[0].0)
            &&& writes(files, OutputKind::Bytecode) <==> options.extract_bytecode
                && module.bytecode is Some
            &&& writes(files, OutputKind::ModuleInfo) <==> options.extract_module_info
                && module.module_info is Some
            &&& writes(files, OutputKind::DecodedSourcemap) <==> options.decode_sourcemaps
                && module.sourcemap is Some
            &&& writes(files, OutputKind::RawSourcemap) <==> !options.decode_sourcemaps
                && module.sourcemap is Some
            &&& forall|j: int, k: int|
                #![trigger files[j], files[k]]
                0 <= j < k < files.len() ==> rank(files[j].1) < rank(files[k].1)
            &&& forall|k: int|
                #![trigger files[k]]
                0 <= k < files.len() ==> {
                    let path = files[k].0;
                    &&& path.len() == files[0].0.len()
                    &&& path.len() > 0
                    &&& path.drop_last() == files[0].0.drop_last()
                    &&& path.last() == files[0].0.last() + ending(files[k].1)
                }
        },
{
    paths::module_stays_inside(module.name);
    if let PlanView::Files(files) = plan_of(module, options) {
        let path = paths::module_parts(module.name)->Some_0;
        let map = module.sourcemap is Some;
        let bytecode = options.extract_bytecode && module.bytecode is Some;
        let info = options.extract_module_info && module.module_info is Some;
        let map_kind = if options.decode_sourcemaps {
            OutputKind::DecodedSourcemap
        } else {
            OutputKind::RawSourcemap
        };
        let at_bytecode: int = if map {
            2
        } else {
            1
        };
        let at_info: int = if bytecode {
            at_bytecode + 1
        } else {
            at_bytecode
        };
        let count: int = if info {
            at_info + 1
        } else {
            at_info
        };
        assert(files.len() == count);
        assert(files[0] == (path, OutputKind::Contents));
        assert(map ==> files[1] == (beside(path, ".map"@), map_kind));
        assert(bytecode ==> files[at_bytecode] == (
            beside(path, ".bytecode"@),
            OutputKind::Bytecode,
        ));
        assert(info ==> files[at_info] == (beside(path, ".module_info"@), OutputKind::ModuleInfo));
        assert(path.last() + Seq::<char>::empty() =~= path.last());
        lemma_beside(path, ".map"@);
        lemma_beside(path, ".bytecode"@);
        lemma_beside(path, ".module_info"@);
        assert(bytecode ==> files[at_bytecode].1 == OutputKind::Bytecode);
        assert(info ==> files[at_info].1 == OutputKind::ModuleInfo);
        assert(map ==> files[1].1 == map_kind);
        assert forall|k: int| #![trigger files[k]] 0 <= k < files.len() implies {
            let own = files[k].0;
            &&& own.len() == path.len()
            &&& own.drop_last() == path.drop_last()
            &&& own.last() == path.last() + ending(files[k].1)
        } by {
            assert(k == 0 || map && k == 1 || bytecode && k == at_bytecode || info && k == at_info);
        }
    }
}

proof fn lemma_beside(path: Seq<Seq<char>>, suffix: Seq<char>)
    requires
        path.len() > 0,
    ensures
        beside(path, suffix).len() == path.len(),
        beside(path, suffix).drop_last() == path.drop_last(),
        beside(path, suffix).last() == path.last() + suffix,
{
    assert(beside(path, suffix).drop_last() =~= path.drop_last());
}

/// Which modules are extracted. Without the restriction to JavaScript none is skipped; with it,
/// exactly those are kept that have a loader for JavaScript or TypeScript or a name that ends like
/// such a file. Of these, one is refused exactly if its name does not lead into the output
/// directory.
pub proof fn planned_modules(module: ModuleView, options: ExtractOptions)
    ensures
        ({
            let wanted = {
                ||| !options.js_only
                ||| module.loader == Loader::Js || module.loader == Loader::Jsx
                ||| module.loader == Loader::Ts || module.loader == Loader::Tsx
                ||| ".js"@.is_suffix_of(module.name) || ".mjs"@.is_suffix_of(module.name)
                ||| ".cjs"@.is_suffix_of(module.name) || ".ts"@.is_suffix_of(module.name)
                ||| ".mts"@.is_suffix_of(module.name) || ".cts"@.is_suffix_of(module.name)
            };
            &&& plan_of(module, options) is Skipped <==> !wanted
            &&& plan_of(module, options) is Unsafe <==> wanted && paths::module_parts(
                module.name,
            ) is None
        }),
{
    crate::format::kinds_of_files(module.loader, module.name);
    reveal_strlit("JavaScript");
    reveal_strlit("TypeScript");
    reveal_strlit("JSON");
    reveal_strlit("WebAssembly");
    reveal_strlit("Native addon");
    reveal_strlit("CSS");
    reveal_strlit("HTML");
    reveal_strlit("Text");
    reveal_strlit("TOML");
    reveal_strlit("Scheme/Query");
    reveal_strlit("SQLite");
    reveal_strlit("Unknown");
    let kind = crate::format::kind_of(module.loader, module.name);
    assert("JavaScript"@[0] == 'J' && "JavaScript"@[1] == 'a');
    assert("JSON"@[1] == 'S');
    assert("TypeScript"@[0] == 'T' && "TypeScript"@[1] == 'y');
    assert("Text"@[1] == 'e' && "TOML"@[1] == 'O');
    assert("WebAssembly"@[0] == 'W' && "Native addon"@[0] == 'N' && "CSS"@[0] == 'C' && "HTML"@[0]
        == 'H' && "Scheme/Query"@[0] == 'S' && "SQLite"@[0] == 'S' && "Unknown"@[0] == 'U');
}

} // verus!
