use fdt::FDT;
use fdt::NodeIterator;
use fdt::PropertyIterator;
use fdt::error::Error;

fn push_be32(v: &mut Vec<u8>, x: u32) {
    v.extend_from_slice(&x.to_be_bytes());
}

fn push_be64(v: &mut Vec<u8>, x: u64) {
    v.extend_from_slice(&x.to_be_bytes());
}

fn pad4(v: &mut Vec<u8>) {
    while v.len() % 4 != 0 {
        v.push(0);
    }
}

fn add_name(strings: &mut Vec<u8>, name: &str) -> u32 {
    let off = strings.len() as u32;
    strings.extend_from_slice(name.as_bytes());
    strings.push(0);
    off
}

fn begin_node(dt: &mut Vec<u8>, name: &str) {
    push_be32(dt, 1);
    dt.extend_from_slice(name.as_bytes());
    dt.push(0);
    pad4(dt);
}

fn end_node(dt: &mut Vec<u8>) {
    push_be32(dt, 2);
}

fn prop(dt: &mut Vec<u8>, strings: &mut Vec<u8>, name: &str, value: &[u8]) {
    push_be32(dt, 3);
    push_be32(dt, value.len() as u32);
    let off = add_name(strings, name);
    push_be32(dt, off);
    dt.extend_from_slice(value);
    pad4(dt);
}

/// Builds a blob with the same observable content as the library's test
/// device tree: total size 16917, boot cpu 0, one reserved region at 0
/// of size 0x1000, a `cpus` node with phandle 67, and `/soc/audio`
/// aliased as `audio`.
fn test_blob() -> Vec<u8> {
    let mut dt: Vec<u8> = Vec::new();
    let mut strings: Vec<u8> = Vec::new();

    begin_node(&mut dt, "");
    prop(&mut dt, &mut strings, "model", b"test board\0");
    prop(&mut dt, &mut strings, "short", &[0xAB, 0xCD]);
    prop(&mut dt, &mut strings, "junk", &[0xFF]);
    begin_node(&mut dt, "aliases");
    prop(&mut dt, &mut strings, "audio", b"/soc/audio\0");
    end_node(&mut dt);
    begin_node(&mut dt, "cpus");
    prop(&mut dt, &mut strings, "phandle", &67u32.to_be_bytes());
    prop(&mut dt, &mut strings, "#address-cells", &1u32.to_be_bytes());
    prop(&mut dt, &mut strings, "#size-cells", &0u32.to_be_bytes());
    begin_node(&mut dt, "cpu@0");
    prop(&mut dt, &mut strings, "device_type", b"cpu\0");
    end_node(&mut dt);
    begin_node(&mut dt, "cpu@1");
    end_node(&mut dt);
    end_node(&mut dt);
    begin_node(&mut dt, "soc");
    begin_node(&mut dt, "audio");
    prop(&mut dt, &mut strings, "compatible", b"brcm,bcm2835-audio\0");
    end_node(&mut dt);
    end_node(&mut dt);
    end_node(&mut dt);
    push_be32(&mut dt, 9);

    let total: usize = 16917;
    let rsv_off: u32 = 40;
    let struct_off: u32 = rsv_off + 32;
    let strings_off: u32 = struct_off + dt.len() as u32;

    let mut buf: Vec<u8> = Vec::new();
    push_be32(&mut buf, 0xd00dfeed);
    push_be32(&mut buf, total as u32);
    push_be32(&mut buf, struct_off);
    push_be32(&mut buf, strings_off);
    push_be32(&mut buf, rsv_off);
    push_be32(&mut buf, 17);
    push_be32(&mut buf, 16);
    push_be32(&mut buf, 0);
    push_be32(&mut buf, strings.len() as u32);
    push_be32(&mut buf, dt.len() as u32);
    push_be64(&mut buf, 0);
    push_be64(&mut buf, 0x1000);
    push_be64(&mut buf, 0);
    push_be64(&mut buf, 0);
    buf.extend_from_slice(&dt);
    buf.extend_from_slice(&strings);
    while buf.len() < total {
        buf.push(0);
    }
    buf
}

#[test]
fn test_construct() {
    let buf = test_blob();
    let fdt = FDT::from_bytes(&buf);
    assert!(fdt.is_ok());
}

#[test]
fn test_boot_cpu() {
    let buf = test_blob();
    let fdt = FDT::from_bytes(&buf).unwrap();
    assert_eq!(fdt.boot_cpuid_phys().unwrap(), 0);
}

#[test]
fn test_total_size() {
    let buf = test_blob();
    let fdt = FDT::from_bytes(&buf).unwrap();
    assert_eq!(fdt.total_size(), 16917);
}

#[test]
fn test_fetching_node() {
    let buf = test_blob();
    let fdt = FDT::from_bytes(&buf).unwrap();
    let mut with_name = fdt.nodes().with_name("cpus");
    let cpus = with_name.next();
    assert!(cpus.is_some());
    assert_eq!(cpus.unwrap().name(), "cpus");
    assert!(with_name.next().is_none());
}

#[test]
fn test_bad_magic() {
    let mut buf = test_blob();
    buf[0] = 0x12;
    match FDT::from_bytes(&buf) {
        Err(Error::BadMagic(v)) => assert_eq!(v, 0x12_0d_fe_ed),
        _ => panic!("expected a magic mismatch"),
    }
}

#[test]
fn test_bad_version() {
    let mut buf = test_blob();
    buf[24] = 0;
    buf[25] = 0;
    buf[26] = 0;
    buf[27] = 42;
    match FDT::from_bytes(&buf) {
        Err(Error::BadVersion(v)) => assert_eq!(v, 42),
        _ => panic!("expected a version mismatch"),
    }
}

#[test]
fn test_truncated() {
    let buf = test_blob();
    assert_eq!(FDT::from_bytes(&buf[..16916]).unwrap_err(), Error::Truncated);
    assert_eq!(FDT::from_bytes(&buf[..20]).unwrap_err(), Error::Truncated);
}

#[test]
fn test_preorder_names_and_depths() {
    let buf = test_blob();
    let fdt = FDT::from_bytes(&buf).unwrap();
    let mut nodes = fdt.nodes();
    let expect = [
        ("", 0usize),
        ("aliases", 1),
        ("cpus", 1),
        ("cpu@0", 2),
        ("cpu@1", 2),
        ("soc", 1),
        ("audio", 2),
    ];
    for (name, depth) in expect.iter() {
        let n = nodes.next().unwrap();
        assert_eq!(n.name(), *name);
        assert_eq!(n.depth(), *depth);
    }
    assert!(nodes.next().is_none());
}

#[test]
fn test_children_are_direct_only() {
    let buf = test_blob();
    let fdt = FDT::from_bytes(&buf).unwrap();
    let root = fdt.nodes().next().unwrap();
    let mut children = root.children();
    assert_eq!(children.next().unwrap().name(), "aliases");
    assert_eq!(children.next().unwrap().name(), "cpus");
    assert_eq!(children.next().unwrap().name(), "soc");
    assert!(children.next().is_none());
}

#[test]
fn test_subnodes_stay_in_subtree() {
    let buf = test_blob();
    let fdt = FDT::from_bytes(&buf).unwrap();
    let cpus = fdt.nodes().with_name("cpus").next().unwrap();
    let mut subs = cpus.subnodes();
    assert_eq!(subs.next().unwrap().name(), "cpu@0");
    assert_eq!(subs.next().unwrap().name(), "cpu@1");
    assert!(subs.next().is_none());
}

#[test]
fn test_has_name_address_part() {
    let buf = test_blob();
    let fdt = FDT::from_bytes(&buf).unwrap();
    let mut both = fdt.nodes().with_name("cpu");
    assert_eq!(both.next().unwrap().name(), "cpu@0");
    assert_eq!(both.next().unwrap().name(), "cpu@1");
    assert!(both.next().is_none());
    let mut one = fdt.nodes().with_name("cpu@1");
    assert_eq!(one.next().unwrap().name(), "cpu@1");
    assert!(one.next().is_none());
    assert!(fdt.nodes().with_name("cpus@0").next().is_none());
}

#[test]
fn test_phandle_lookup() {
    let buf = test_blob();
    let fdt = FDT::from_bytes(&buf).unwrap();
    let node = fdt.phandle(67).unwrap();
    assert_eq!(node.name(), "cpus");
    assert_eq!(node.phandle(), Some(67));
    assert!(fdt.phandle(9999).is_none());
}

#[test]
fn test_alias_resolution() {
    let buf = test_blob();
    let fdt = FDT::from_bytes(&buf).unwrap();
    assert_eq!(fdt.alias("audio"), Some("/soc/audio"));
    assert_eq!(fdt.alias("video"), None);
}

#[test]
fn test_with_path() {
    let buf = test_blob();
    let fdt = FDT::from_bytes(&buf).unwrap();
    let audio = fdt.nodes().with_path("/soc/audio").next().unwrap();
    assert_eq!(audio.name(), "audio");
    assert_eq!(
        audio.property("compatible").unwrap().parse::<&str>().unwrap(),
        "brcm,bcm2835-audio\u{0}"
    );
    assert!(fdt.nodes().with_path("/soc/missing").next().is_none());
}

#[test]
fn test_with_path_wildcard() {
    let buf = test_blob();
    let fdt = FDT::from_bytes(&buf).unwrap();
    let audio = fdt.nodes().with_path("/*/audio").next().unwrap();
    assert_eq!(audio.name(), "audio");
    let mut cpu = fdt.nodes().with_path("/cpus/*");
    assert_eq!(cpu.next().unwrap().name(), "cpu@0");
}

#[test]
fn test_compatible() {
    let buf = test_blob();
    let fdt = FDT::from_bytes(&buf).unwrap();
    let mut matching = fdt.nodes().compatible_with("brcm,bcm2835-audio");
    assert_eq!(matching.next().unwrap().name(), "audio");
    assert!(matching.next().is_none());
    let audio = fdt.nodes().with_name("audio").next().unwrap();
    assert!(audio.is_compatible_with("brcm,bcm2835-audio"));
    assert!(!audio.is_compatible_with("brcm,bcm2835"));
}

#[test]
fn test_stringlist() {
    let buf = test_blob();
    let fdt = FDT::from_bytes(&buf).unwrap();
    let audio = fdt.nodes().with_name("audio").next().unwrap();
    let p = audio.property("compatible").unwrap();
    let sl = p.as_stringlist().unwrap();
    let mut it = sl.strings();
    assert_eq!(it.next(), Some("brcm,bcm2835-audio"));
    assert_eq!(it.next(), None);
    assert!(sl.contains("brcm,bcm2835-audio"));
    assert!(!sl.contains("brcm"));
}

#[test]
fn test_property_decode() {
    let buf = test_blob();
    let fdt = FDT::from_bytes(&buf).unwrap();
    let root = fdt.nodes().next().unwrap();
    assert_eq!(root.property("model").unwrap().as_str(), Ok("test board\u{0}"));
    assert_eq!(root.property("short").unwrap().as_u32(), Err(Error::BadValue));
    assert_eq!(root.property("short").unwrap().raw(), &[0xAB, 0xCD]);
    assert_eq!(root.property("junk").unwrap().as_str(), Err(Error::BadValue));
    assert_eq!(root.property("junk").unwrap().as_stringlist().unwrap_err(), Error::BadValue);
    assert!(root.property("absent").is_none());
    let cpus = fdt.nodes().with_name("cpus").next().unwrap();
    assert_eq!(cpus.property("phandle").unwrap().as_u32(), Ok(67));
    assert!(cpus.property("phandle").unwrap().is_equal(67u32));
    assert!(!cpus.property("phandle").unwrap().is_equal(68u32));
}

#[test]
fn test_cells_defaults() {
    let buf = test_blob();
    let fdt = FDT::from_bytes(&buf).unwrap();
    let cpus = fdt.nodes().with_name("cpus").next().unwrap();
    assert_eq!(cpus.address_cells(), 1);
    assert_eq!(cpus.size_cells(), 0);
    let soc = fdt.nodes().with_name("soc").next().unwrap();
    assert_eq!(soc.address_cells(), 2);
    assert_eq!(soc.size_cells(), 2);
}

#[test]
fn test_properties_in_order() {
    let buf = test_blob();
    let fdt = FDT::from_bytes(&buf).unwrap();
    let root = fdt.nodes().next().unwrap();
    let mut props = root.properties();
    assert_eq!(props.next().unwrap().name(), "model");
    assert_eq!(props.next().unwrap().name(), "short");
    assert_eq!(props.next().unwrap().name(), "junk");
    assert!(props.next().is_none());
    let mut named = root.properties().with_name("short");
    assert_eq!(named.next().unwrap().name(), "short");
    assert!(named.next().is_none());
}

#[test]
fn test_with_property_filters() {
    let buf = test_blob();
    let fdt = FDT::from_bytes(&buf).unwrap();
    let mut carriers = fdt.nodes().with_property("device_type");
    assert_eq!(carriers.next().unwrap().name(), "cpu@0");
    assert!(carriers.next().is_none());
    let mut valued = fdt.nodes().with_property("phandle").with_value(67u32);
    assert_eq!(valued.next().unwrap().name(), "cpus");
    assert!(valued.next().is_none());
}

#[test]
fn test_memory_reserve_map() {
    let buf = test_blob();
    let fdt = FDT::from_bytes(&buf).unwrap();
    let mut rsv = fdt.memory_reserve_map();
    let entry = rsv.next().unwrap();
    assert_eq!(entry.address, 0);
    assert_eq!(entry.size, 0x1000);
    assert!(rsv.next().is_none());
}

#[test]
fn test_supernode_unavailable() {
    let buf = test_blob();
    let fdt = FDT::from_bytes(&buf).unwrap();
    let audio = fdt.nodes().with_name("audio").next().unwrap();
    assert!(audio.supernode_at_depth(1).is_none());
}

#[test]
fn test_struct_reader_cursor() {
    let buf = test_blob();
    let fdt = FDT::from_bytes(&buf).unwrap();
    let mut rd = fdt.blob.nodes();
    assert_eq!(rd.offs(), 0);
    assert!(matches!(rd.token(), fdt::blob::Token::BeginNode));
    assert_eq!(rd.offs(), 4);
    assert_eq!(rd.string(), "");
    rd.align(4);
    assert_eq!(rd.offs(), 8);
    rd.skip(4);
    assert_eq!(rd.offs(), 12);
}

#[test]
fn test_header_fields() {
    let buf = test_blob();
    let fdt = FDT::from_bytes(&buf).unwrap();
    let header = fdt.blob.header();
    assert!(header.magic().valid().is_ok());
    assert_eq!(header.totalsize(), 16917);
    assert_eq!(header.version().val, 17);
    assert_eq!(header.last_comp_version(), 16);
    assert_eq!(header.off_mem_rsvmap(), 40);
    assert_eq!(header.off_dt_struct(), 72);
    assert_eq!(header.boot_cpuid_phys(), Some(0));
    assert!(header.size_dt_strings().is_some());
    assert!(header.size_dt_struct().is_some());
}

#[test]
fn test_boot_cpu_absent_before_version_two() {
    let mut buf = test_blob();
    buf[20] = 0;
    buf[21] = 0;
    buf[22] = 0;
    buf[23] = 1;
    let fdt = FDT::from_bytes(&buf).unwrap();
    assert_eq!(fdt.boot_cpuid_phys(), None);
    assert_eq!(fdt.blob.header().size_dt_strings(), None);
    assert_eq!(fdt.blob.header().size_dt_struct(), None);
}

#[test]
fn test_strings_block_lookup() {
    let buf = test_blob();
    let fdt = FDT::from_bytes(&buf).unwrap();
    assert_eq!(fdt.blob.string(0), Some("model"));
    assert_eq!(fdt.blob.string(6), Some("short"));
    assert_eq!(fdt.blob.string(1_000_000), None);
    assert!(fdt.blob.validate().is_ok());
}
