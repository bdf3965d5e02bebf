//! The structure builder: deriving the project directory from a
//! configuration, resolving the directory list (built-in default or
//! template-supplied), and planning the ordered batch of directory
//! creations and file copies that materializes the layout.

use vstd::prelude::*;
use crate::paths::{normalize_path, normalize_spec, parent_dir, parent_of, strs_view};

verus! {

/// The input of a structure creation: identifier strings, the base path,
/// and an optional path of a template document.
pub struct ProjectConfig {
    pub project_ref: String,
    pub artist_ref: String,
    pub base_path: String,
    pub template_path: Option<String>,
}

/// One file seeded into a fresh structure: a source to copy from and a
/// destination relative to the project directory.
pub struct BaseFile {
    pub source: String,
    pub destination: String,
}

/// A project template: a directory list to create in order and the base
/// files to copy once all directories exist.
pub struct ProjectTemplate {
    pub name: String,
    pub description: String,
    pub directories: Vec<String>,
    pub base_files: Vec<BaseFile>,
}

/// The project directory of a configuration: the normalized base path,
/// a slash, and the artist and project references joined by an
/// underscore.
pub open spec fn project_dir_spec(base: Seq<char>, artist: Seq<char>, project: Seq<char>) -> Seq<
    char,
> {
    normalize_spec(base) + seq!['/'] + artist + seq!['_'] + project
}

/// Derives the project directory from a configuration.
pub fn project_directory(config: &ProjectConfig) -> (r: String)
    ensures
        r@ == project_dir_spec(config.base_path@, config.artist_ref@, config.project_ref@),
{
    let mut r = normalize_path(config.base_path.as_str());
    r.append("/");
    r.append(config.artist_ref.as_str());
    r.append("_");
    r.append(config.project_ref.as_str());
    proof {
        reveal_strlit("/");
        reveal_strlit("_");
        assert("/"@ =~= seq!['/']);
        assert("_"@ =~= seq!['_']);
        assert(r@ =~= project_dir_spec(config.base_path@, config.artist_ref@, config.project_ref@));
    }
    r
}

/// The built-in production layout: the department, tool and delivery
/// directories created when no template is supplied.
pub open spec fn default_directories_spec() -> Seq<Seq<char>> {
    seq![
        "adobe"@,
        "Deliveries"@,
        "houdini"@,
        "maya"@,
        "maya/assets"@,
        "maya/autosave"@,
        "maya/cache"@,
        "maya/clips"@,
        "maya/data"@,
        "maya/images"@,
        "maya/movies"@,
        "maya/renderData"@,
        "maya/sceneAssembly"@,
        "maya/scenes"@,
        "maya/scenes/global"@,
        "maya/scripts"@,
        "maya/scripts/global"@,
        "maya/sound"@,
        "maya/sourceImages"@,
        "maya/Time Editor"@,
        "nuke"@,
        "Plates"@,
        "Reference"@,
        "zbrush"@,
    ]
}

/// The built-in directory list, as strings.
pub fn default_directories() -> (r: Vec<String>)
    ensures
        strs_view(r@) == default_directories_spec(),
{
    let mut r: Vec<String> = Vec::new();
    r.push(String::from_str("adobe"));
    r.push(String::from_str("Deliveries"));
    r.push(String::from_str("houdini"));
    r.push(String::from_str("maya"));
    r.push(String::from_str("maya/assets"));
    r.push(String::from_str("maya/autosave"));
    r.push(String::from_str("maya/cache"));
    r.push(String::from_str("maya/clips"));
    r.push(String::from_str("maya/data"));
    r.push(String::from_str("maya/images"));
    r.push(String::from_str("maya/movies"));
    r.push(String::from_str("maya/renderData"));
    r.push(String::from_str("maya/sceneAssembly"));
    r.push(String::from_str("maya/scenes"));
    r.push(String::from_str("maya/scenes/global"));
    r.push(String::from_str("maya/scripts"));
    r.push(String::from_str("maya/scripts/global"));
    r.push(String::from_str("maya/sound"));
    r.push(String::from_str("maya/sourceImages"));
    r.push(String::from_str("maya/Time Editor"));
    r.push(String::from_str("nuke"));
    r.push(String::from_str("Plates"));
    r.push(String::from_str("Reference"));
    r.push(String::from_str("zbrush"));
    proof {
        assert(strs_view(r@) =~= default_directories_spec());
    }
    r
}

/// The model of one build step.
pub enum StepModel {
    MakeDir { path: Seq<char> },
    CopyFile { source: Seq<char>, destination: Seq<char> },
}

/// One step of a structure plan: create a directory (with any missing
/// ancestors, tolerating an existing one), or copy a file.
pub enum BuildStep {
    MakeDir { path: String },
    CopyFile { source: String, destination: String },
}

impl BuildStep {
    /// The model of this step.
    pub open spec fn model(self) -> StepModel {
        match self {
            BuildStep::MakeDir { path } => StepModel::MakeDir { path: path@ },
            BuildStep::CopyFile { source, destination } => StepModel::CopyFile {
                source: source@,
                destination: destination@,
            },
        }
    }
}

/// The models of a step list, elementwise.
pub open spec fn steps_model(s: Seq<BuildStep>) -> Seq<StepModel> {
    Seq::new(s.len(), |i: int| s[i].model())
}

/// The views of a base-file list, as source and destination pairs.
pub open spec fn files_view(s: Seq<BaseFile>) -> Seq<(Seq<char>, Seq<char>)> {
    Seq::new(s.len(), |i: int| (s[i].source@, s[i].destination@))
}

/// One directory-creation step per listed directory, in list order, each
/// under the project directory.
pub open spec fn dir_steps(pd: Seq<char>, dirs: Seq<Seq<char>>) -> Seq<StepModel> {
    Seq::new(dirs.len(), |i: int| StepModel::MakeDir { path: pd + seq!['/'] + dirs[i] })
}

/// For each base file, in order: ensure the destination's parent
/// directory, then copy the source to the destination under the project
/// directory.
pub open spec fn file_steps(pd: Seq<char>, files: Seq<(Seq<char>, Seq<char>)>) -> Seq<StepModel>
    decreases files.len(),
{
    if files.len() == 0 {
        Seq::empty()
    } else {
        let dest = pd + seq!['/'] + files.first().1;
        seq![
            StepModel::MakeDir { path: parent_dir(dest) },
            StepModel::CopyFile { source: files.first().0, destination: dest },
        ] + file_steps(pd, files.drop_first())
    }
}

/// The full plan: every directory creation, then every file copy.
pub open spec fn structure_steps_spec(
    pd: Seq<char>,
    dirs: Seq<Seq<char>>,
    files: Seq<(Seq<char>, Seq<char>)>,
) -> Seq<StepModel> {
    dir_steps(pd, dirs) + file_steps(pd, files)
}

/// All directory creations of the listed directories precede every file
/// copy: the plan opens with exactly the directory steps, in list order.
pub proof fn lemma_directories_before_copies(
    pd: Seq<char>,
    dirs: Seq<Seq<char>>,
    files: Seq<(Seq<char>, Seq<char>)>,
)
    ensures
        structure_steps_spec(pd, dirs, files).len() >= dirs.len(),
        structure_steps_spec(pd, dirs, files).take(dirs.len() as int) == dir_steps(pd, dirs),
        forall|i: int|
            0 <= i < dirs.len() ==> #[trigger] structure_steps_spec(pd, dirs, files)[i] is MakeDir,
{
    assert(structure_steps_spec(pd, dirs, files).take(dirs.len() as int) =~= dir_steps(pd, dirs));
    assert forall|i: int| 0 <= i < dirs.len() implies #[trigger] structure_steps_spec(
        pd,
        dirs,
        files,
    )[i] is MakeDir by {
        assert(structure_steps_spec(pd, dirs, files)[i] == dir_steps(pd, dirs)[i]);
    }
}

/// A copy of a string vector.
fn clone_strings(v: &Vec<String>) -> (r: Vec<String>)
    ensures
        r@ == v@,
{
    let mut r: Vec<String> = Vec::new();
    let mut i: usize = 0;
    while i < v.len()
        invariant
            i <= v@.len(),
            r@ == v@.take(i as int),
        decreases v@.len() - i,
    {
        let s = v[i].clone();
        r.push(s);
        proof {
            assert(v@.take(i as int).push(v@[i as int]) =~= v@.take(i + 1));
        }
        i += 1;
    }
    proof {
        assert(v@.take(v@.len() as int) =~= v@);
    }
    r
}

/// `rel` placed under `base`, joined with a single slash.
fn join_under(base: &str, rel: &str) -> (r: String)
    ensures
        r@ == base@ + seq!['/'] + rel@,
{
    let mut r = base.to_owned();
    r.append("/");
    r.append(rel);
    proof {
        reveal_strlit("/");
        assert("/"@ =~= seq!['/']);
        assert(r@ =~= base@ + seq!['/'] + rel@);
    }
    r
}

/// A planned structure creation: the computed project directory, the
/// ordered steps that materialize it, and the success message reported
/// once every step has succeeded.
pub struct StructurePlan {
    pub project_dir: String,
    pub steps: Vec<BuildStep>,
    pub message: String,
}

/// Plans a structure creation: computes the project directory, takes the
/// directory list from the template when one is supplied and the
/// built-in default otherwise, and lists every directory creation (in
/// order) followed by every template file copy (each preceded by its
/// destination's parent directory).
pub fn plan_structure(config: &ProjectConfig, template: Option<&ProjectTemplate>) -> (r:
    StructurePlan)
    ensures
        r.project_dir@ == project_dir_spec(config.base_path@, config.artist_ref@, config.project_ref@),
        r.message@ == "Project structure created at "@ + r.project_dir@,
        steps_model(r.steps@) == structure_steps_spec(
            project_dir_spec(config.base_path@, config.artist_ref@, config.project_ref@),
            match template {
                Some(t) => strs_view(t.directories@),
                None => default_directories_spec(),
            },
            match template {
                Some(t) => files_view(t.base_files@),
                None => Seq::empty(),
            },
        ),
{
    let pd = project_directory(config);
    let dirs: Vec<String> = match template {
        None => default_directories(),
        Some(t) => clone_strings(&t.directories),
    };
    let ghost dv: Seq<Seq<char>> = strs_view(dirs@);
    let mut steps: Vec<BuildStep> = Vec::new();
    let mut i: usize = 0;
    proof {
        assert(steps_model(steps@) =~= dir_steps(pd@, dv).take(0));
    }
    while i < dirs.len()
        invariant
            i <= dirs@.len(),
            dv == strs_view(dirs@),
            steps_model(steps@) == dir_steps(pd@, dv).take(i as int),
        decreases dirs@.len() - i,
    {
        let ghost pre = steps@;
        let full = join_under(pd.as_str(), dirs[i].as_str());
        steps.push(BuildStep::MakeDir { path: full });
        proof {
            assert(steps_model(pre).len() == pre.len());
            assert(dir_steps(pd@, dv).take(i as int).len() == i);
            assert(pre.len() == i);
            assert(steps@.len() == i + 1);
            assert(dv[i as int] == dirs@[i as int]@);
            assert(steps@[i as int].model() == dir_steps(pd@, dv)[i as int]);
            assert forall|j: int| 0 <= j < i + 1 implies steps_model(steps@)[j] == dir_steps(
                pd@,
                dv,
            ).take(i + 1)[j] by {
                if j < i {
                    assert(steps@[j] == pre[j]);
                    assert(steps_model(pre)[j] == dir_steps(pd@, dv).take(i as int)[j]);
                }
            }
            assert(steps_model(steps@).len() == i + 1);
            assert(steps_model(steps@) =~= dir_steps(pd@, dv).take(i + 1));
        }
        i += 1;
    }
    proof {
        assert(dir_steps(pd@, dv).take(dv.len() as int) =~= dir_steps(pd@, dv));
    }
    if let Some(t) = template {
        let ghost fv = files_view(t.base_files@);
        let ghost base_steps = steps_model(steps@);
        proof {
            assert(fv.skip(0) =~= fv);
        }
        let mut k: usize = 0;
        while k < t.base_files.len()
            invariant
                k <= t.base_files@.len(),
                fv == files_view(t.base_files@),
                steps_model(steps@) + file_steps(pd@, fv.skip(k as int)) == base_steps + file_steps(
                    pd@,
                    fv,
                ),
            decreases t.base_files@.len() - k,
        {
            let ghost pre = steps@;
            let bf = &t.base_files[k];
            let dest = join_under(pd.as_str(), bf.destination.as_str());
            let parent = parent_of(dest.as_str());
            let ghost dest_v = dest@;
            let ghost parent_v = parent@;
            let source = bf.source.clone();
            steps.push(BuildStep::MakeDir { path: parent });
            steps.push(BuildStep::CopyFile { source, destination: dest });
            proof {
                let rest = fv.skip(k as int);
                assert(rest.first() == fv[k as int]);
                let bfk = t.base_files@[k as int];
                assert(fv[k as int] == (bfk.source@, bfk.destination@));
                assert(rest.drop_first() =~= fv.skip(k + 1));
                assert(dest_v == pd@ + seq!['/'] + rest.first().1);
                assert(parent_v == parent_dir(dest_v));
                assert(file_steps(pd@, rest) == seq![
                    StepModel::MakeDir { path: parent_dir(dest_v) },
                    StepModel::CopyFile { source: rest.first().0, destination: dest_v },
                ] + file_steps(pd@, fv.skip(k + 1)));
                assert(steps_model(steps@) =~= steps_model(pre) + seq![
                    StepModel::MakeDir { path: parent_v },
                    StepModel::CopyFile { source: rest.first().0, destination: dest_v },
                ]);
                assert((steps_model(pre) + seq![
                    StepModel::MakeDir { path: parent_v },
                    StepModel::CopyFile { source: rest.first().0, destination: dest_v },
                ]) + file_steps(pd@, fv.skip(k + 1)) =~= steps_model(pre) + (seq![
                    StepModel::MakeDir { path: parent_v },
                    StepModel::CopyFile { source: rest.first().0, destination: dest_v },
                ] + file_steps(pd@, fv.skip(k + 1))));
            }
            k += 1;
        }
        proof {
            assert(fv.skip(fv.len() as int) =~= Seq::<(Seq<char>, Seq<char>)>::empty());
            assert(steps_model(steps@) + Seq::<StepModel>::empty() =~= steps_model(steps@));
        }
    } else {
        proof {
            assert(steps_model(steps@) + Seq::<StepModel>::empty() =~= steps_model(steps@));
        }
    }
    let message = String::from_str("Project structure created at ").concat(pd.as_str());
    StructurePlan { project_dir: pd, steps, message }
}

/// The message of a failed base-file copy, naming both paths and the
/// underlying failure.
pub fn copy_error_message(source: &str, destination: &str, detail: &str) -> (r: String)
    ensures
        r@ == "Failed to copy file from "@ + source@ + " to "@ + destination@ + ": "@ + detail@,
{
    let mut r = String::from_str("Failed to copy file from ");
    r.append(source);
    r.append(" to ");
    r.append(destination);
    r.append(": ");
    r.append(detail);
    proof {
        assert(r@ =~= "Failed to copy file from "@ + source@ + " to "@ + destination@ + ": "@
            + detail@);
    }
    r
}

/// The message reported after a single folder creation.
pub fn folder_created_message(path: &str) -> (r: String)
    ensures
        r@ == "Directory created successfully at "@ + path@,
{
    String::from_str("Directory created successfully at ").concat(path)
}

} // verus!
