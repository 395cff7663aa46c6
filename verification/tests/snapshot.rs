use shellman::registry::{SSHRegistry, Server};
use shellman::snapshot::{from_json, to_json};

fn server(id: u32, name: &str, user: &str, host: &str, key: Option<&str>) -> Server {
    Server {
        id,
        name: name.to_string(),
        user: user.to_string(),
        host: host.to_string(),
        existing_ssh_key: key.map(|k| k.to_string()),
    }
}

#[test]
fn empty_registry_renders_empty_document() {
    let reg = SSHRegistry::empty();
    assert_eq!(to_json(&reg), "{\"servers\":[]}");
}

#[test]
fn one_profile_renders_exactly() {
    let mut reg = SSHRegistry::empty();
    reg.add(&server(1, "alice@example.com", "alice", "example.com", None)).unwrap();
    assert_eq!(
        to_json(&reg),
        "{\"servers\":[{\"id\":1,\"name\":\"alice@example.com\",\"user\":\"alice\",\
         \"host\":\"example.com\",\"existing_ssh_key\":null}]}"
    );
}

#[test]
fn own_key_renders_as_string() {
    let mut reg = SSHRegistry::empty();
    reg.add(&server(2, "b", "bob", "example.com", Some("/own/key"))).unwrap();
    assert_eq!(
        to_json(&reg),
        "{\"servers\":[{\"id\":2,\"name\":\"b\",\"user\":\"bob\",\
         \"host\":\"example.com\",\"existing_ssh_key\":\"/own/key\"}]}"
    );
}

#[test]
fn round_trip_reconstructs_registry() {
    let mut reg = SSHRegistry::empty();
    reg.add(&server(1, "a", "alice", "one.example.com", None)).unwrap();
    reg.add(&server(3, "b", "bob", "two.example.com", Some("/k"))).unwrap();
    reg.remove(1).unwrap();
    reg.add(&server(4, "c", "carol", "three.example.com", None)).unwrap();
    let text = to_json(&reg);
    let loaded = from_json(&text).unwrap();
    let a = reg.servers();
    let b = loaded.servers();
    assert_eq!(a.len(), b.len());
    for (x, y) in a.iter().zip(b.iter()) {
        assert_eq!(x.id, y.id);
        assert_eq!(x.name, y.name);
        assert_eq!(x.user, y.user);
        assert_eq!(x.host, y.host);
        assert_eq!(x.existing_ssh_key, y.existing_ssh_key);
    }
}

#[test]
fn round_trip_keeps_escaped_characters() {
    let mut reg = SSHRegistry::empty();
    reg.add(&server(1, "quote \" slash \\ tab \t nl \n cr \r done", "al\"ice", "example.com", None))
        .unwrap();
    let text = to_json(&reg);
    let loaded = from_json(&text).unwrap();
    assert_eq!(loaded.servers()[0].name, "quote \" slash \\ tab \t nl \n cr \r done");
    assert_eq!(loaded.servers()[0].user, "al\"ice");
}

#[test]
fn reader_accepts_the_other_escapes() {
    let text = "{\"servers\":[{\"id\":1,\"name\":\"a\\/b\\bc\\fd\",\"user\":\"u\",\
                \"host\":\"h\",\"existing_ssh_key\":null}]}";
    let reg = from_json(text).unwrap();
    assert_eq!(reg.servers()[0].name, "a/b\u{0008}c\u{000C}d");
}

#[test]
fn malformed_documents_are_corrupt() {
    assert!(from_json("").is_err());
    assert!(from_json("{}").is_err());
    assert!(from_json("{\"servers\":[").is_err());
    assert!(from_json("{\"servers\":[]} ").is_err());
    assert!(from_json("{\"servers\":[{\"id\":0,\"name\":\"a\",\"user\":\"u\",\
                       \"host\":\"h\",\"existing_ssh_key\":null}]}").is_err());
    assert!(from_json("{\"servers\":[{\"id\":01,\"name\":\"a\",\"user\":\"u\",\
                       \"host\":\"h\",\"existing_ssh_key\":null}]}").is_err());
    assert!(from_json("{\"servers\":[{\"id\":4294967296,\"name\":\"a\",\"user\":\"u\",\
                       \"host\":\"h\",\"existing_ssh_key\":null}]}").is_err());
}

#[test]
fn documents_breaking_the_invariant_are_corrupt() {
    let dup_ids = "{\"servers\":[\
        {\"id\":1,\"name\":\"a\",\"user\":\"u\",\"host\":\"h1\",\"existing_ssh_key\":null},\
        {\"id\":1,\"name\":\"b\",\"user\":\"v\",\"host\":\"h2\",\"existing_ssh_key\":null}]}";
    let err = from_json(dup_ids).unwrap_err();
    assert_eq!(err.message(), "SSH registry file is corrupt");
    let dup_pair = "{\"servers\":[\
        {\"id\":1,\"name\":\"a\",\"user\":\"u\",\"host\":\"h\",\"existing_ssh_key\":null},\
        {\"id\":2,\"name\":\"b\",\"user\":\"u\",\"host\":\"h\",\"existing_ssh_key\":null}]}";
    assert!(from_json(dup_pair).is_err());
}

#[test]
fn reader_accepts_two_profiles() {
    let text = "{\"servers\":[\
        {\"id\":1,\"name\":\"a\",\"user\":\"u\",\"host\":\"h1\",\"existing_ssh_key\":null},\
        {\"id\":2,\"name\":\"b\",\"user\":\"v\",\"host\":\"h2\",\"existing_ssh_key\":\"/k\"}]}";
    let reg = from_json(text).unwrap();
    assert_eq!(reg.servers().len(), 2);
    assert_eq!(reg.servers()[1].existing_ssh_key.as_deref(), Some("/k"));
}
