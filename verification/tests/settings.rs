use loupe::config::{env_file_path, parse_env_file, Config};
use loupe::keyed::KeyedList;

fn env(pairs: &[(&str, &str)]) -> KeyedList<String> {
    let mut m = KeyedList::new();
    for (k, v) in pairs {
        m.insert(k.to_string(), v.to_string());
    }
    m
}

#[test]
fn env_file_lines() {
    let file = parse_env_file("# comment\n\n MILVUS_HOST = \"db.local\" \nMILVUS_PORT='19531'\nnoise\nMILVUS_USER=a\r\nMILVUS_USER=b\nX=1=2");
    assert_eq!(file.get("MILVUS_HOST").map(|s| s.as_str()), Some("db.local"));
    assert_eq!(file.get("MILVUS_PORT").map(|s| s.as_str()), Some("19531"));
    assert_eq!(file.get("MILVUS_USER").map(|s| s.as_str()), Some("b"));
    assert_eq!(file.get("X").map(|s| s.as_str()), Some("1=2"));
    assert_eq!(file.get("noise"), None);
    assert_eq!(file.get("# comment"), None);
    assert_eq!(file.len(), 4);
    assert_eq!(parse_env_file("").len(), 0);
}

#[test]
fn environment_wins_over_file_over_defaults() {
    let file = parse_env_file("MILVUS_HOST=filehost\nMILVUS_PORT=1\nMILVUS_GUI_ROW_CAP=25\nMILVUS_GUI_PORT=99999");
    let e = env(&[("MILVUS_HOST", "envhost"), ("MILVUS_PORT", ""), ("MILVUS_GUI_SORT_CAP", "+10")]);
    let c = Config::resolve(&e, &file);
    assert_eq!(c.host, "envhost");
    assert_eq!(c.port, "1");
    assert_eq!(c.user, "root");
    assert_eq!(c.password, "");
    assert_eq!(c.gui_port, 3003);
    assert_eq!(c.bind, "127.0.0.1");
    assert_eq!(c.row_cap, 25);
    assert_eq!(c.sort_cap, 10);
    let d = Config::resolve(&env(&[]), &KeyedList::new());
    assert_eq!((d.port.as_str(), d.gui_port, d.row_cap, d.sort_cap), ("19530", 3003, 200, 500_000));
}

#[test]
fn env_file_path_is_the_env_file_variable() {
    assert_eq!(env_file_path(&env(&[("ENV_FILE", "/etc/loupe.env")])), "/etc/loupe.env");
    assert_eq!(env_file_path(&env(&[])), "");
}

#[test]
fn env_file_read_in_parts_matches_whole() {
    let first = "A=1\nB=2";
    let second = "# later\nB=3\nC='x'";
    let whole = parse_env_file(&format!("{first}\n{second}"));
    let mut step = parse_env_file(first);
    let later = parse_env_file(second);
    for key in ["B", "C"] {
        step.insert(key.to_string(), later.get(key).unwrap().clone());
    }
    for key in ["A", "B", "C"] {
        assert_eq!(whole.get(key), step.get(key), "{key}");
    }
    assert_eq!(whole.get("B").map(|s| s.as_str()), Some("3"));
}
