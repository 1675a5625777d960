//! The local model server: where it listens, how it is started, and which model it runs.

use vstd::prelude::*;

use crate::number;
use crate::order;
use crate::paths::{Platform, WorkspacePath};
use crate::text;

verus! {

/// The host that the server listens on.
pub const LLAMA_HOST: &'static str = "127.0.0.1";

/// The port that the server listens on.
pub const LLAMA_PORT: u16 = 8080;

/// The number of layers to offload to the GPU where nothing else is set: all of them.
pub const DEFAULT_NGL: i32 = 99;

/// The largest number of layers that can be set.
pub const MAX_NGL: i32 = 999;

/// The host and port of the server.
pub open spec fn address() -> Seq<char> {
    LLAMA_HOST@ + ":"@ + number::decimal(LLAMA_PORT as nat)
}

/// The host and port of the server.
pub fn server_address() -> (s: String)
    ensures
        s@ == address(),
{
    let mut s: String = LLAMA_HOST.to_owned();
    s.append(":");
    s.append(number::decimal_text(LLAMA_PORT as u64).as_str());
    s
}

/// The address that chat completions are asked for at.
pub fn chat_url() -> (s: String)
    ensures
        s@ == "http://"@ + address() + "/v1/chat/completions"@,
{
    let mut s: String = "http://".to_owned();
    s.append(server_address().as_str());
    s.append("/v1/chat/completions");
    s
}

/// The address that tells whether the server is ready.
pub fn health_url() -> (s: String)
    ensures
        s@ == "http://"@ + address() + "/health"@,
{
    let mut s: String = "http://".to_owned();
    s.append(server_address().as_str());
    s.append("/health");
    s
}

/// A folder that may be the base of the server and its models.
#[derive(Debug)]
pub struct BaseCandidate<P> {
    pub folder: P,
    /// There is a `llama` in it.
    pub has_llama: bool,
    /// There is a `models` in it.
    pub has_models: bool,
}

/// The first of `candidates` that holds the server or the models, and `fallback` if none does.
pub open spec fn base_of<P>(candidates: Seq<BaseCandidate<P>>, fallback: P) -> P
    decreases candidates.len(),
{
    if candidates.len() == 0 {
        fallback
    } else if candidates[0].has_llama || candidates[0].has_models {
        candidates[0].folder
    } else {
        base_of(candidates.drop_first(), fallback)
    }
}

/// Picks the folder that holds the server and its models.
pub fn resource_base<P>(candidates: Vec<BaseCandidate<P>>, fallback: P) -> (base: P)
    ensures
        base == base_of(candidates@, fallback),
{
    let mut candidates = candidates;
    let ghost all = candidates@;
    let mut i: usize = 0;
    assert(all.skip(0) =~= all);
    while i < candidates.len() && !(candidates[i].has_llama || candidates[i].has_models)
        invariant
            candidates@ == all,
            i <= all.len(),
            base_of(all.skip(i as int), fallback) == base_of(all, fallback),
        decreases all.len() - i,
    {
        assert(all.skip(i as int).drop_first() =~= all.skip(i + 1));
        i = i + 1;
    }
    if i < candidates.len() {
        candidates.remove(i).folder
    } else {
        fallback
    }
}

/// The file name of the server's program.
pub open spec fn server_program(platform: Platform) -> Seq<char> {
    if platform == Platform::Windows {
        "llama-server.exe"@
    } else {
        "llama-server"@
    }
}

/// Where the server's program lies below `base`.
pub fn llama_binary<R>(base: R, platform: Platform) -> (path: WorkspacePath<R>)
    ensures
        path.root == base,
        text::texts(path.names@) == seq!["llama"@, server_program(platform)],
{
    let exe: String = if platform == Platform::Windows {
        "llama-server.exe".to_owned()
    } else {
        "llama-server".to_owned()
    };
    let mut names: Vec<String> = Vec::new();
    names.push("llama".to_owned());
    names.push(exe);
    assert(text::texts(names@) =~= seq!["llama"@, server_program(platform)]);
    WorkspacePath { root: base, names }
}

/// What is said where the server's program is missing.
pub fn missing_binary(binary: &str) -> (s: String)
    ensures
        s@ == "llama-server를 찾을 수 없습니다: "@ + binary@,
{
    let mut s: String = "llama-server를 찾을 수 없습니다: ".to_owned();
    s.append(binary);
    s
}

/// The arguments that the server is started with. The last one lets it take the function calls
/// out of a model's reply.
pub open spec fn arguments(model: Seq<char>, ngl: int) -> Seq<Seq<char>> {
    seq![
        "-m"@,
        model,
        "--host"@,
        LLAMA_HOST@,
        "--port"@,
        number::decimal(LLAMA_PORT as nat),
        "-ngl"@,
        number::signed_decimal(ngl),
        "-c"@,
        "8192"@,
        "--jinja"@,
    ]
}

/// The arguments that the server is started with.
pub fn server_args(model: &str, ngl: i32) -> (args: Vec<String>)
    ensures
        text::texts(args@) == arguments(model@, ngl as int),
{
    let mut args: Vec<String> = Vec::new();
    args.push("-m".to_owned());
    args.push(model.to_owned());
    args.push("--host".to_owned());
    args.push(LLAMA_HOST.to_owned());
    args.push("--port".to_owned());
    args.push(number::decimal_text(LLAMA_PORT as u64));
    args.push("-ngl".to_owned());
    args.push(number::signed_decimal_text(ngl));
    args.push("-c".to_owned());
    args.push("8192".to_owned());
    args.push("--jinja".to_owned());
    assert(text::texts(args@) =~= arguments(model@, ngl as int));
    args
}

/// Plans the start of the server's program, `binary`, with the model at `model`: what it is called
/// with, or what is said where it is missing.
pub fn spawn_llama(binary: &str, exists: bool, model: &str, ngl: i32) -> (r: Result<
    Vec<String>,
    String,
>)
    ensures
        match r {
            Ok(args) => exists && text::texts(args@) == arguments(model@, ngl as int),
            Err(e) => !exists && e@ == "llama-server를 찾을 수 없습니다: "@ + binary@,
        },
{
    if exists {
        Ok(server_args(model, ngl))
    } else {
        Err(missing_binary(binary))
    }
}

/// `name` has the extension `gguf`, in letters of either case, behind a stem that is not empty.
pub open spec fn is_model_name(name: Seq<char>) -> bool {
    let n = name.len() as int;
    &&& n > 5
    &&& name[n - 5] == '.'
    &&& name[n - 4] == 'g' || name[n - 4] == 'G'
    &&& name[n - 3] == 'g' || name[n - 3] == 'G'
    &&& name[n - 2] == 'u' || name[n - 2] == 'U'
    &&& name[n - 1] == 'f' || name[n - 1] == 'F'
}

/// Whether the file `name` is a model.
pub fn model_name(name: &str) -> (b: bool)
    ensures
        b == is_model_name(name@),
{
    let v: Vec<char> = text::chars_of(name);
    let n: usize = v.len();
    n > 5 && v[n - 5] == '.' && (v[n - 4] == 'g' || v[n - 4] == 'G') && (v[n - 3] == 'g' || v[n - 3]
        == 'G') && (v[n - 2] == 'u' || v[n - 2] == 'U') && (v[n - 1] == 'f' || v[n - 1] == 'F')
}

/// The models among the files `names`, in order.
pub open spec fn models(names: Seq<Seq<char>>) -> Seq<Seq<char>> {
    order::in_order(names.filter(|name: Seq<char>| is_model_name(name)))
}

/// Finds the models among the files `names` of the models folder, sorted by name.
pub fn find_models(names: &Vec<String>) -> (r: Vec<String>)
    ensures
        text::texts(r@) == models(text::texts(names@)),
{
    let ghost all = text::texts(names@);
    let ghost keep = |name: Seq<char>| is_model_name(name);
    let mut found: Vec<String> = Vec::new();
    let mut i: usize = 0;
    assert(all.take(0).filter(keep) =~= seq![]) by {
        reveal(Seq::filter);
    }
    assert(text::texts(found@) =~= seq![]);
    while i < names.len()
        invariant
            all == text::texts(names@),
            keep == (|name: Seq<char>| is_model_name(name)),
            i <= names@.len(),
            text::texts(found@) == all.take(i as int).filter(keep),
        decreases names@.len() - i,
    {
        let name: String = names[i].clone();
        proof {
            assert(all[i as int] == name@);
            assert(all.take(i + 1).drop_last() =~= all.take(i as int));
            reveal(Seq::filter);
        }
        let ghost before = found@;
        if model_name(name.as_str()) {
            found.push(name);
            assert(text::texts(found@) =~= text::texts(before).push(name@));
        }
        i = i + 1;
    }
    assert(all.take(i as int) =~= all);
    order::sort_texts(found)
}

/// The models that are found are the models among the files, in the order of their names.
pub proof fn found_models_are_the_models(names: Seq<Seq<char>>)
    ensures
        vstd::relations::sorted_by(models(names), order::text_order()),
        forall|name: Seq<char>| #[trigger]
            models(names).contains(name) <==> names.contains(name) && is_model_name(name),
{
    let keep = |name: Seq<char>| is_model_name(name);
    let kept = names.filter(keep);
    order::in_order_sorts(kept);
    assert forall|name: Seq<char>| #[trigger]
        models(names).contains(name) <==> names.contains(name) && is_model_name(name) by {
        vstd::seq_lib::to_multiset_contains(kept, name);
        vstd::seq_lib::to_multiset_contains(models(names), name);
        if names.contains(name) && is_model_name(name) {
            let i = choose|i: int| 0 <= i < names.len() && names[i] == name;
            names.lemma_filter_contains(keep, i);
        }
        if kept.contains(name) {
            let k = choose|k: int| 0 <= k < kept.len() && kept[k] == name;
            names.lemma_filter_pred(keep, k);
            names.lemma_filter_contains_rev(keep, name);
        }
    }
}

/// The layer count that a settings file of this content sets.
pub open spec fn stored_ngl(file: Option<Seq<char>>) -> i32 {
    match file {
        Some(content) => match number::written_i32(text::trim(content)) {
            Some(n) => n,
            None => DEFAULT_NGL,
        },
        None => DEFAULT_NGL,
    }
}

/// The layer count that the settings file holds; the default where it cannot be read.
pub fn load_ngl(file: Option<&str>) -> (ngl: i32)
    ensures
        ngl == stored_ngl(
            match file {
                Some(content) => Some(content@),
                None => None,
            },
        ),
{
    match file {
        Some(content) => match number::parse_i32(text::trimmed(content).as_str()) {
            Some(n) => n,
            None => DEFAULT_NGL,
        },
        None => DEFAULT_NGL,
    }
}

/// The content of the settings file that holds `ngl`.
pub open spec fn settings_file(ngl: i32) -> Seq<char> {
    number::signed_decimal(ngl as int)
}

/// The content of the settings file that holds `ngl`.
pub fn save_ngl(ngl: i32) -> (content: String)
    ensures
        content@ == number::signed_decimal(ngl as int),
        content@ == settings_file(ngl),
        stored_ngl(Some(content@)) == ngl,
{
    proof {
        saved_ngl_is_loaded(ngl);
    }
    number::signed_decimal_text(ngl)
}

/// The layer count nearest to `value` that can be set.
pub open spec fn clamped_ngl(value: int) -> int {
    if value < 0 {
        0
    } else if value > MAX_NGL {
        MAX_NGL as int
    } else {
        value
    }
}

/// The layer count that asking for `value` sets.
pub fn set_ngl(value: i32) -> (ngl: i32)
    ensures
        ngl == clamped_ngl(value as int),
{
    if value < 0 {
        0
    } else if value > MAX_NGL {
        MAX_NGL
    } else {
        value
    }
}

/// A digit or a minus sign is no white space, so the notation of a number has none around it.
proof fn lemma_number_is_trimmed(n: int)
    ensures
        text::trim(number::signed_decimal(n)) == number::signed_decimal(n),
{
    let s = number::signed_decimal(n);
    if n < 0 {
        let d = number::decimal((-n) as nat);
        number::lemma_decimal_reads_back((-n) as nat);
        assert(s[0] == '-');
        assert(s.last() == d.last());
        assert(number::is_digit(d[d.len() - 1]));
    } else {
        number::lemma_decimal_reads_back(n as nat);
        assert(number::is_digit(s[0]));
        assert(number::is_digit(s[s.len() - 1]));
    }
}

/// A layer count that was saved is the one that is loaded.
pub proof fn saved_ngl_is_loaded(ngl: i32)
    ensures
        stored_ngl(Some(number::signed_decimal(ngl as int))) == ngl,
{
    lemma_number_is_trimmed(ngl as int);
    number::signed_decimal_reads_back(ngl);
}

/// A layer count that was set is one that can be set, and is the one that is loaded once it was
/// saved; setting it again changes nothing.
pub proof fn set_ngl_is_kept(value: i32)
    ensures
        0 <= clamped_ngl(value as int) <= MAX_NGL,
        stored_ngl(Some(number::signed_decimal(clamped_ngl(value as int)))) == clamped_ngl(
            value as int,
        ),
        clamped_ngl(clamped_ngl(value as int)) == clamped_ngl(value as int),
{
    saved_ngl_is_loaded(clamped_ngl(value as int) as i32);
}

/// What the frontend is told of the server.
#[derive(Debug)]
pub struct LlamaStatus {
    /// "starting" (running or loading), "choose" (pick a model) or "no_model".
    pub state: String,
    pub models: Vec<String>,
}

/// What the frontend is told, where `up` says that a server runs or was started: the state, and
/// the models to choose from.
pub open spec fn shown_status(up: bool, models: Seq<Seq<char>>) -> (Seq<char>, Seq<Seq<char>>) {
    if up {
        ("starting"@, seq![])
    } else if models.len() == 0 {
        ("no_model"@, models)
    } else {
        ("choose"@, models)
    }
}

/// What the frontend is told, where `up` says that a server runs or was started.
pub fn llama_status(up: bool, models: Vec<String>) -> (status: LlamaStatus)
    ensures
        status.state@ == (if up {
            "starting"@
        } else if models@.len() == 0 {
            "no_model"@
        } else {
            "choose"@
        }),
        text::texts(status.models@) == (if up {
            seq![]
        } else {
            text::texts(models@)
        }),
        (status.state@, text::texts(status.models@)) == shown_status(up, text::texts(models@)),
{
    if up {
        let none: Vec<String> = Vec::new();
        assert(text::texts(none@) =~= seq![]);
        LlamaStatus { state: "starting".to_owned(), models: none }
    } else if models.len() == 0 {
        LlamaStatus { state: "no_model".to_owned(), models }
    } else {
        LlamaStatus { state: "choose".to_owned(), models }
    }
}

/// What starting a model comes down to.
#[derive(Clone, Copy, Debug, PartialEq, Eq, Structural)]
pub enum StartPlan {
    /// A server is there already: nothing is done.
    Nothing,
    /// The server is started with the model.
    Spawn,
}

/// Plans the start of the model `name`; `found` says that its file exists.
pub fn start_model(name: &str, up: bool, found: bool) -> (r: Result<StartPlan, String>)
    ensures
        match r {
            Ok(StartPlan::Nothing) => up,
            Ok(StartPlan::Spawn) => !up && found,
            Err(e) => !up && !found && e@ == "모델을 찾을 수 없습니다: "@ + name@,
        },
{
    if up {
        Ok(StartPlan::Nothing)
    } else if found {
        Ok(StartPlan::Spawn)
    } else {
        let mut e: String = "모델을 찾을 수 없습니다: ".to_owned();
        e.append(name);
        Err(e)
    }
}

/// How the server is restarted.
#[derive(Debug)]
pub struct RestartPlan {
    /// The model to run.
    pub model: String,
    /// The server that was started before is stopped first.
    pub stop_first: bool,
}

/// The model that a restart runs: the one that ran last, else the only one there is.
pub open spec fn restart_model(last: Option<Seq<char>>, models: Seq<Seq<char>>) -> Option<
    Seq<char>,
> {
    match last {
        Some(name) => Some(name),
        None => if models.len() == 1 {
            Some(models[0])
        } else {
            None
        },
    }
}

/// The view of an optional string.
pub open spec fn text_option(s: Option<String>) -> Option<Seq<char>> {
    match s {
        Some(s) => Some(s@),
        None => None,
    }
}

/// The model that a restart runs, and whether the server is stopped first; none where it is not
/// done. `started` says that a server started here is up, `running` that some server answers.
pub open spec fn restarted(
    last: Option<Seq<char>>,
    models: Seq<Seq<char>>,
    started: bool,
    running: bool,
) -> Option<(Seq<char>, bool)> {
    match restart_model(last, models) {
        Some(name) if started || !running => Some((name, started)),
        _ => None,
    }
}

/// Plans a restart. `started` says that a server started here is up, `running` that some server
/// answers.
pub fn restart_llama(
    last: Option<String>,
    models: Vec<String>,
    started: bool,
    running: bool,
) -> (r: Result<RestartPlan, String>)
    ensures
        match restart_model(text_option(last), text::texts(models@)) {
            None => r matches Err(e) && e@
                == "재시작할 모델을 알 수 없습니다. 모델을 먼저 선택하세요."@,
            Some(name) => if !started && running {
                r matches Err(e) && e@
                    == "외부에서 실행한 서버는 앱이 재시작할 수 없습니다. 수동으로 다시 띄워주세요."@
            } else {
                r matches Ok(plan) && plan.model@ == name && plan.stop_first == started
            },
        },
        match r {
            Ok(plan) => restarted(
                text_option(last),
                text::texts(models@),
                started,
                running,
            ) == Some((plan.model@, plan.stop_first)),
            Err(_) => restarted(
                text_option(last),
                text::texts(models@),
                started,
                running,
            ) is None,
        },
{
    let mut models = models;
    assert(text::texts(models@).len() == models@.len());
    let model: String = match last {
        Some(name) => name,
        None => {
            if models.len() != 1 {
                return Err(
                    "재시작할 모델을 알 수 없습니다. 모델을 먼저 선택하세요.".to_owned(),
                );
            }
            assert(text::texts(models@)[0] == models@[0]@);
            models.remove(0)
        },
    };
    if !started && running {
        return Err(
            "외부에서 실행한 서버는 앱이 재시작할 수 없습니다. 수동으로 다시 띄워주세요.".to_owned(),
        );
    }
    Ok(RestartPlan { model, stop_first: started })
}

/// What is done about the server when the assistant starts.
#[derive(Debug)]
pub enum Startup {
    /// A server that runs already is used.
    Reuse,
    /// The only model is started.
    Start(String),
    /// There is no model.
    NoModel,
    /// The user chooses one of so many models.
    Choose(usize),
}

/// Decides what is done about the server when the assistant starts.
pub fn startup(running: bool, models: Vec<String>) -> (s: Startup)
    ensures
        match s {
            Startup::Reuse => running,
            Startup::Start(name) => !running && models@.len() == 1 && name@ == models@[0]@,
            Startup::NoModel => !running && models@.len() == 0,
            Startup::Choose(n) => !running && models@.len() > 1 && n == models@.len(),
        },
{
    let mut models = models;
    if running {
        Startup::Reuse
    } else if models.len() == 0 {
        Startup::NoModel
    } else if models.len() == 1 {
        Startup::Start(models.remove(0))
    } else {
        Startup::Choose(models.len())
    }
}

/// What is said of a server that runs already.
pub fn reuse_notice() -> (s: String)
    ensures
        s@ == "llama-server가 이미 "@ + number::decimal(LLAMA_PORT as nat)
            + " 포트에서 실행 중 — 재사용합니다."@,
{
    let mut s: String = "llama-server가 이미 ".to_owned();
    s.append(number::decimal_text(LLAMA_PORT as u64).as_str());
    s.append(" 포트에서 실행 중 — 재사용합니다.");
    s
}

/// What is said where the user has `n` models to choose from.
pub fn choose_notice(n: usize) -> (s: String)
    ensures
        s@ == "모델 "@ + number::decimal(n as nat) + "개 발견 — 사용자 선택을 기다립니다."@,
{
    let mut s: String = "모델 ".to_owned();
    s.append(number::decimal_text(n as u64).as_str());
    s.append("개 발견 — 사용자 선택을 기다립니다.");
    s
}

/// The server is started with the model and the layer count that it is to have: the model stands
/// behind `-m`, and behind `-ngl` a number that reads back as the layer count, whatever that is.
pub proof fn arguments_hold_the_model_and_the_layers(model: Seq<char>, ngl: i32)
    ensures
        arguments(model, ngl as int).len() == 11,
        arguments(model, ngl as int)[0] == "-m"@,
        arguments(model, ngl as int)[1] == model,
        arguments(model, ngl as int)[6] == "-ngl"@,
        number::written_i32(arguments(model, ngl as int)[7]) == Some(ngl),
        arguments(model, ngl as int)[2] == "--host"@,
        arguments(model, ngl as int)[4] == "--port"@,
        address() == arguments(model, ngl as int)[3] + ":"@ + arguments(model, ngl as int)[5],
        number::written_i32(arguments(model, ngl as int)[5]) == Some(8080i32),
        arguments(model, ngl as int)[8] == "-c"@,
        number::written_i32(arguments(model, ngl as int)[9]) == Some(8192i32),
        arguments(model, ngl as int)[10] == "--jinja"@,
{
    number::signed_decimal_reads_back(ngl);
    number::signed_decimal_reads_back(8080);
    reveal_strlit("8192");
    let s = "8192"@;
    assert(s.drop_last().drop_last().drop_last().drop_last() =~= seq![]);
    reveal_with_fuel(number::digits_value, 6);
    assert(number::digits_value(s) == 8192);
}

/// Starts with different models or layer counts have different arguments, and apart from these
/// two all starts are alike.
pub proof fn starts_differ_by_model_and_layers(
    model: Seq<char>,
    ngl: i32,
    other: Seq<char>,
    layers: i32,
)
    ensures
        arguments(model, ngl as int) == arguments(other, layers as int) ==> model == other && ngl
            == layers,
        forall|k: int|
            0 <= k < 11 && k != 1 && k != 7 ==> #[trigger] arguments(model, ngl as int)[k]
                == arguments(other, layers as int)[k],
{
    arguments_hold_the_model_and_the_layers(model, ngl);
    arguments_hold_the_model_and_the_layers(other, layers);
}

/// The base is the first candidate with the server or the models in it, and what was to fall back
/// on where no candidate has either.
pub proof fn the_base_is_the_first_that_fits<P>(
    candidates: Seq<BaseCandidate<P>>,
    fallback: P,
    k: int,
)
    requires
        0 <= k <= candidates.len(),
        forall|j: int|
            0 <= j < k ==> !(#[trigger] candidates[j]).has_llama && !candidates[j].has_models,
        k < candidates.len() ==> candidates[k].has_llama || candidates[k].has_models,
    ensures
        base_of(candidates, fallback) == (if k < candidates.len() {
            candidates[k].folder
        } else {
            fallback
        }),
    decreases k,
{
    if k > 0 {
        let rest = candidates.drop_first();
        assert(!candidates[0].has_llama && !candidates[0].has_models);
        assert forall|j: int| 0 <= j < k - 1 implies !(#[trigger] rest[j]).has_llama
            && !rest[j].has_models by {
            assert(rest[j] == candidates[j + 1]);
        }
        the_base_is_the_first_that_fits(rest, fallback, k - 1);
    }
}

/// A file is a model exactly where its name is something, and then `.gguf` in letters of either
/// case.
pub proof fn models_are_named_by_their_extension(stem: Seq<char>, extension: Seq<char>)
    requires
        extension.len() == 5,
    ensures
        is_model_name(stem + extension) <==> stem.len() > 0 && text::ascii_lowercase(extension)
            == ".gguf"@,
        stem.len() <= 5 ==> !is_model_name(stem),
{
    reveal_strlit(".gguf");
    let name = stem + extension;
    let lower = text::ascii_lowercase(extension);
    assert(forall|i: int| 0 <= i < 5 ==> name[name.len() - 5 + i] == #[trigger] extension[i]);
    assert(name[name.len() - 5] == extension[0]);
    assert(name[name.len() - 4] == extension[1]);
    assert(name[name.len() - 3] == extension[2]);
    assert(name[name.len() - 2] == extension[3]);
    assert(name[name.len() - 1] == extension[4]);
    if lower == ".gguf"@ {
        assert(lower[0] == '.' && lower[1] == 'g' && lower[2] == 'g' && lower[3] == 'u' && lower[4]
            == 'f');
    }
    if is_model_name(name) {
        assert(lower =~= ".gguf"@);
    }
}

/// The layer count in a settings file is read past the white space around it. A file that is
/// missing, or holds no number, sets all layers.
pub proof fn settings_are_read(before: Seq<char>, ngl: i32, behind: Seq<char>)
    requires
        text::is_blank(before),
        text::is_blank(behind),
    ensures
        stored_ngl(Some(before + number::signed_decimal(ngl as int) + behind)) == ngl,
        stored_ngl(Some(before)) == 99,
        stored_ngl(None) == 99,
{
    let s = number::signed_decimal(ngl as int);
    lemma_number_is_trimmed(ngl as int);
    text::lemma_trim(s);
    text::trimming_takes_off_white_space(before, s, behind);
    number::signed_decimal_reads_back(ngl);
    text::trimming_takes_off_white_space(before, seq![], seq![]);
    assert(before + seq![] + seq![] =~= before);
}

/// The layer count that is set is the one nearest to what was asked for among those from 0 to 999.
pub proof fn the_nearest_layer_count_is_set(value: int, other: int)
    requires
        0 <= other <= 999,
    ensures
        0 <= clamped_ngl(value) <= 999,
        value <= other ==> value <= clamped_ngl(value) <= other || clamped_ngl(value) == value,
        value >= other ==> other <= clamped_ngl(value) <= value,
        0 <= value <= 999 ==> clamped_ngl(value) == value,
{
}

/// A restart takes the model that was started last, whatever models there are; without one, the
/// only model; and else it is unknown what to restart.
pub proof fn restarts_take_the_last_or_the_only_model(
    name: Seq<char>,
    models: Seq<Seq<char>>,
)
    ensures
        restart_model(Some(name), models) == Some(name),
        restart_model(None, seq![name]) == Some(name),
        models.len() != 1 ==> restart_model(None, models) is None,
{
}

/// A restart stops the server exactly where one was started here, and leaves one that runs
/// otherwise alone: it is done where a model is known, unless only such a server runs.
pub proof fn restarts_stop_only_what_was_started(
    name: Seq<char>,
    models: Seq<Seq<char>>,
    started: bool,
    running: bool,
)
    ensures
        restarted(Some(name), models, true, running) == Some((name, true)),
        restarted(Some(name), models, false, false) == Some((name, false)),
        restarted(Some(name), models, false, true) is None,
        restarted(None, seq![name], started, running) == restarted(
            Some(name),
            models,
            started,
            running,
        ),
        models.len() != 1 ==> restarted(None, models, started, running) is None,
{
}

/// The frontend is shown every model exactly where no server is up and there is one, and told to
/// choose exactly there.
pub proof fn models_are_offered_while_no_server_is_up(models: Seq<Seq<char>>)
    ensures
        shown_status(true, models) == ("starting"@, Seq::<Seq<char>>::empty()),
        models.len() > 0 ==> shown_status(false, models) == ("choose"@, models),
        shown_status(false, seq![]) == ("no_model"@, Seq::<Seq<char>>::empty()),
{
}

/// What the settings file is given is what is read from it.
pub proof fn settings_are_read_back(ngl: i32)
    ensures
        stored_ngl(Some(settings_file(ngl))) == ngl,
{
    saved_ngl_is_loaded(ngl);
}

} // verus!
