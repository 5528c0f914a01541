use kvs::client;
use kvs::codec::encode_command;
use kvs::{
    interpret_response, parse_engine, run, serve_command, Command, CommandResponse, Engine,
    GetArgs, KvStore, KvsEngine, KvsError, RmArgs, SetArgs, SledKvsEngine,
};

fn open_empty() -> KvStore {
    KvStore::open(Vec::new()).unwrap()
}

#[test]
fn serve_command_answers_protocol() {
    let mut store = open_empty();
    let r = serve_command(
        &mut store,
        client::Command::SetCmd { key: "k".to_owned(), value: "v".to_owned() },
    );
    assert_eq!(r, CommandResponse::Success);
    let r = serve_command(&mut store, client::Command::Get { key: "k".to_owned() });
    assert_eq!(r, CommandResponse::Value("v".to_owned()));
    let r = serve_command(&mut store, client::Command::Get { key: "nope".to_owned() });
    assert_eq!(r, CommandResponse::KeyNotFound);
    let r = serve_command(&mut store, client::Command::Remove { key: "k".to_owned() });
    assert_eq!(r, CommandResponse::Success);
    let r = serve_command(&mut store, client::Command::Remove { key: "k".to_owned() });
    assert_eq!(
        r,
        CommandResponse::Error("Remove command error: Key not found".to_owned())
    );
}

#[test]
fn interpret_response_outcomes() {
    let (line, res) = interpret_response(CommandResponse::Value("v".to_owned()));
    assert_eq!(line, Some("v".to_owned()));
    assert!(res.is_ok());
    let (line, res) = interpret_response(CommandResponse::Success);
    assert_eq!(line, None);
    assert!(res.is_ok());
    let (line, res) = interpret_response(CommandResponse::KeyNotFound);
    assert_eq!(line, Some("Key not found".to_owned()));
    assert!(res.is_ok());
    let (line, res) = interpret_response(CommandResponse::Error("boom".to_owned()));
    assert_eq!(line, None);
    assert!(matches!(res, Err(KvsError::RequestError(m)) if m == "boom"));
}

#[test]
fn run_reports_cli_outcomes() {
    let mut store = open_empty();
    let out = run(
        Command::SetCmd(SetArgs { key: "k".to_owned(), value: "v".to_owned() }),
        &mut store,
    );
    assert_eq!(out.exit_code, 0);
    assert_eq!(out.line, None);
    let out = run(Command::Get(GetArgs { key: "k".to_owned() }), &mut store);
    assert_eq!(out.exit_code, 0);
    assert_eq!(out.line, Some("v".to_owned()));
    assert!(!out.to_stderr);
    let out = run(Command::Get(GetArgs { key: "zz".to_owned() }), &mut store);
    assert_eq!(out.exit_code, 0);
    assert_eq!(out.line, Some("Key not found".to_owned()));
    let out = run(Command::Rm(RmArgs { key: "k".to_owned() }), &mut store);
    assert_eq!(out.exit_code, 0);
    let out = run(Command::Rm(RmArgs { key: "k".to_owned() }), &mut store);
    assert_eq!(out.exit_code, 1);
    assert_eq!(out.line, Some("Key not found".to_owned()));
    assert!(!out.to_stderr);
}

#[test]
fn engine_names_parse() {
    assert_eq!(parse_engine("kvs").unwrap(), Engine::Kvs);
    assert_eq!(parse_engine("sled").unwrap(), Engine::Sled);
    assert!(matches!(parse_engine("ked"), Err(KvsError::UnknownEngine)));
    assert!(matches!("kvs".parse::<Engine>(), Ok(Engine::Kvs)));
    assert_eq!(Engine::variants(), ["kvs", "sled"]);
    assert_eq!(Engine::Kvs.name(), "kvs");
    assert_eq!(Engine::Sled.name(), "sled");
}

#[test]
fn error_messages() {
    assert_eq!(KvsError::KeyNotFound.message(), "Key not found");
    assert_eq!(KvsError::UnexpectedCommand.message(), "Unexpected command");
    assert_eq!(KvsError::UnknownEngine.message(), "Unknown database engine");
    assert_eq!(
        KvsError::RequestError("x".to_owned()).message(),
        "Error from server: x"
    );
}

#[test]
fn sort_log_files_orders_ids() {
    let names: Vec<String> = vec![
        "10.log".to_owned(),
        "2.log".to_owned(),
        "junk.txt".to_owned(),
        "1.log".to_owned(),
        "x.log".to_owned(),
        "3.log.log".to_owned(),
        "007.log".to_owned(),
        "2.log".to_owned(),
        ".log".to_owned(),
        "5".to_owned(),
    ];
    let ids = kvs::kv::sort_log_files(&names);
    assert_eq!(ids, vec![1, 2, 3, 7, 10]);
}

#[test]
fn sled_engine_round_trip() {
    let mut db = SledKvsEngine::open_temporary().unwrap();
    db.set("k".to_owned(), "v1".to_owned()).unwrap();
    db.set("k".to_owned(), "v2".to_owned()).unwrap();
    assert_eq!(db.get("k".to_owned()).unwrap(), Some("v2".to_owned()));
    assert_eq!(db.get("absent".to_owned()).unwrap(), None);
    db.remove("k".to_owned()).unwrap();
    assert_eq!(db.get("k".to_owned()).unwrap(), None);
    assert!(matches!(
        db.remove("k".to_owned()),
        Err(KvsError::KeyNotFound)
    ));
}

#[test]
fn positioned_reader_and_writer() {
    let mut w = kvs::BufWriterWithPos::new(Vec::new());
    assert_eq!(w.pos, 0);
    let rec = encode_command(&Command::SetCmd(SetArgs {
        key: "k".to_owned(),
        value: "v".to_owned(),
    }));
    w.write_all(&rec);
    w.flush();
    assert_eq!(w.pos as usize, rec.len());
    let mut r = kvs::BufReaderWithPos::new(w.into_data());
    assert_eq!(r.pos, 0);
    let (cmd, end) = r.read_record().unwrap();
    assert_eq!(end as usize, rec.len());
    assert_eq!(r.pos, end);
    assert!(matches!(cmd, Command::SetCmd(_)));
    r.seek(0);
    assert_eq!(r.pos, 0);
}

#[test]
fn log_pointer_from_range() {
    let p = kvs::LogPointer::from_range(4, 10, 25);
    assert_eq!(p.log_file_id, 4);
    assert_eq!(p.start_position, 10);
    assert_eq!(p.len, 15);
}
