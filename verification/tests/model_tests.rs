use server_pulse::model::{AdminUser, PingResult, Server};

#[test]
fn server_clone_keeps_fields() {
    let s = Server {
        id: 3,
        name: String::from("Local test server"),
        address: String::from("localhost"),
        port: 25565,
        created_at: String::from("2024-01-01T00:00:00Z"),
    };
    let c = s.clone();
    assert_eq!(c.id, s.id);
    assert_eq!(c.name, s.name);
    assert_eq!(c.address, s.address);
    assert_eq!(c.port, s.port);
    assert_eq!(c.created_at, s.created_at);
}

#[test]
fn ping_result_clone_keeps_fields() {
    let p = PingResult {
        id: 8,
        server_id: 3,
        pinged_at: String::from("2024-01-01T00:10:00Z"),
        online: true,
        players_online: Some(4),
        players_max: Some(20),
        version: Some(String::from("1.21")),
        motd: None,
    };
    assert_eq!(p.clone(), p);
}

#[test]
fn admin_user_holds_its_fields() {
    let a = AdminUser {
        id: 1,
        username: String::from("admin"),
        password_hash: String::from("stored-hash"),
        created_at: String::from("2024-01-01T00:00:00Z"),
    };
    assert_eq!(a.username, "admin");
    assert_eq!(a.id, 1);
}
