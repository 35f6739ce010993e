use oxidns::addr::{IpAddr, SocketAddr};
use oxidns::client_ip_from_ecs::{
    ClientIpFromEcs, ClientIpFromEcsFactory, DnsContext, ExecStep, PluginConfig,
    UninitializedPlugin,
};
use oxidns::proto::{ClientSubnet, Edns, EdnsOption, Message, MessageType, Opcode};

fn test_context() -> DnsContext {
    DnsContext {
        request: Message {
            id: 1,
            message_type: MessageType::Query,
            opcode: Opcode::Query,
            recursion_desired: true,
            questions: Vec::new(),
            edns: None,
        },
        peer_addr: SocketAddr::new(IpAddr::V4([127, 0, 0, 1]), 5300),
    }
}

fn add_ecs(context: &mut DnsContext, addr: IpAddr, prefix: u8) {
    let option = EdnsOption::Subnet(ClientSubnet { addr, source_prefix: prefix, scope_prefix: 0 });
    match &mut context.request.edns {
        Some(edns) => edns.options.push(option),
        None => context.request.edns = Some(Edns { options: vec![option] }),
    }
}

fn plugin() -> ClientIpFromEcs {
    ClientIpFromEcs { tag: "client_ip_from_ecs".to_string() }
}

fn v6(segments: [u16; 8]) -> IpAddr {
    let mut bytes = [0u8; 16];
    for (i, s) in segments.iter().enumerate() {
        bytes[2 * i..2 * i + 2].copy_from_slice(&s.to_be_bytes());
    }
    IpAddr::V6(bytes)
}

#[test]
fn replaces_ip_and_preserves_port() {
    let mut context = test_context();
    context.peer_addr = SocketAddr::new(IpAddr::V4([127, 0, 0, 1]), 5353);
    add_ecs(&mut context, IpAddr::V4([192, 0, 2, 123]), 32);

    assert_eq!(plugin().execute(&mut context).unwrap(), ExecStep::Next);
    assert_eq!(context.peer_addr, SocketAddr::new(IpAddr::V4([192, 0, 2, 123]), 5353));
}

#[test]
fn supports_ipv6_ecs() {
    let mut context = test_context();
    let ecs_ip = v6([0x2001, 0xDB8, 1, 2, 0, 0, 0, 0]);
    add_ecs(&mut context, ecs_ip, 64);

    plugin().execute(&mut context).unwrap();
    assert_eq!(context.peer_addr.ip, ecs_ip);
}

#[test]
fn leaves_client_ip_unchanged_without_usable_ecs() {
    let mut without_ecs = test_context();
    let original = without_ecs.peer_addr;
    plugin().execute(&mut without_ecs).unwrap();
    assert_eq!(without_ecs.peer_addr, original);

    let mut zero_prefix = test_context();
    let original = zero_prefix.peer_addr;
    add_ecs(&mut zero_prefix, IpAddr::V4([0, 0, 0, 0]), 0);
    plugin().execute(&mut zero_prefix).unwrap();
    assert_eq!(zero_prefix.peer_addr, original);
}

#[test]
fn normalizes_ipv4_in_ipv6() {
    let mut context = test_context();
    add_ecs(&mut context, v6([0, 0, 0, 0, 0, 0xFFFF, 0xC000, 0x0201]), 128);
    plugin().execute(&mut context).unwrap();
    assert_eq!(context.peer_addr.ip, IpAddr::V4([192, 0, 2, 1]));
}

#[test]
fn first_subnet_counts_and_other_options_do_not() {
    let mut context = test_context();
    context.request.edns =
        Some(Edns { options: vec![EdnsOption::Other { code: 10, data: vec![1, 2] }] });
    add_ecs(&mut context, IpAddr::V4([198, 51, 100, 1]), 0);
    add_ecs(&mut context, IpAddr::V4([198, 51, 100, 2]), 24);
    let original = context.peer_addr;
    plugin().execute(&mut context).unwrap();
    assert_eq!(context.peer_addr, original);
}

#[test]
fn second_run_changes_nothing() {
    let mut context = test_context();
    context.peer_addr.flowinfo = 4;
    context.peer_addr.scope_id = 9;
    add_ecs(&mut context, IpAddr::V4([192, 0, 2, 123]), 24);
    plugin().execute(&mut context).unwrap();
    let once = context.clone();
    assert_eq!(once.peer_addr.flowinfo, 0);
    assert_eq!(once.peer_addr.scope_id, 0);
    plugin().execute(&mut context).unwrap();
    assert_eq!(context, once);
}

#[test]
fn factory_passes_the_tag_on() {
    let config = PluginConfig { tag: "from_config".to_string() };
    let UninitializedPlugin::Executor(mut made) = ClientIpFromEcsFactory.create(&config).unwrap();
    assert_eq!(made.tag(), "from_config");
    assert!(made.init().is_ok());
    assert!(made.destroy().is_ok());
    let quick = ClientIpFromEcsFactory
        .quick_setup("quick", Some("ignored".to_string()))
        .unwrap();
    assert_eq!(quick, UninitializedPlugin::Executor(ClientIpFromEcs { tag: "quick".to_string() }));
}
