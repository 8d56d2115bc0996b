use orangu::json::Json;
use orangu::lora::{check_merge, split_key, Lora, LoraError};
use orangu::merged::{
    cache_file, cache_name, data_start, entries_fit, file_name, find_entry, find_header,
    front_bytes, identity_of, lay_out, paddings, place, read_cache, FileIdentity, Flush,
    MergedCache, MergedEntry,
};
use orangu::quantize::{row_bytes, GGML_TYPE_Q6_K};
use orangu::safetensors::{SafeTensors, TensorError};

#[test]
fn keys_split_into_the_linear_and_the_half() {
    assert_eq!(
        split_key("transformer_blocks.7.attn.to_q.lora_down.weight"),
        Some(("transformer_blocks.7.attn.to_q", "down"))
    );
    assert_eq!(
        split_key("transformer.transformer_blocks.0.img_mlp.net.2.lora_B.weight"),
        Some(("transformer.transformer_blocks.0.img_mlp.net.2", "up"))
    );
    assert_eq!(split_key("transformer_blocks.7.attn.to_q.alpha"), None);
}

fn file(header: &str, data: &[u8]) -> Vec<u8> {
    let mut out = (header.len() as u64).to_le_bytes().to_vec();
    out.extend_from_slice(header.as_bytes());
    out.extend_from_slice(data);
    out
}

/// A two-tensor file written by hand.
fn fixture() -> Vec<u8> {
    let a: Vec<u8> = [1.0f32, 2.0, 3.0, 4.0, 5.0, 6.0]
        .iter()
        .flat_map(|v| v.to_le_bytes())
        .collect();
    let b: Vec<u8> = [0.5f32, -1.5]
        .iter()
        .flat_map(|v| half::bf16::from_f32(*v).to_le_bytes())
        .collect();
    let header = format!(
        "{{\"__metadata__\":{{\"format\":\"pt\"}},\
         \"a\":{{\"dtype\":\"F32\",\"shape\":[2,3],\"data_offsets\":[0,{}]}},\
         \"b\":{{\"dtype\":\"BF16\",\"shape\":[2],\"data_offsets\":[{},{}]}}}}",
        a.len(),
        a.len(),
        a.len() + b.len()
    );
    let mut data = a;
    data.extend_from_slice(&b);
    file(&header, &data)
}

fn numbers(bits: &[u32]) -> Vec<f32> {
    bits.iter().map(|b| f32::from_bits(*b)).collect()
}

#[test]
fn reads_f32_and_bf16_tensors_with_their_shapes() {
    let bytes = fixture();
    let file = SafeTensors::parse(&bytes).unwrap();
    let (a, shape) = file.tensor("a").unwrap();
    assert_eq!(shape, &[2, 3]);
    assert_eq!(numbers(&a), vec![1.0, 2.0, 3.0, 4.0, 5.0, 6.0]);
    let (b, shape) = file.tensor("b").unwrap();
    assert_eq!(shape, &[2]);
    assert_eq!(numbers(&b), vec![0.5, -1.5]);
    assert!(file.has("a"));
    assert!(!file.has("__metadata__"));
    assert!(file.tensor("c").is_err());
    assert_eq!(file.names(), vec!["a", "b"]);
}

#[test]
fn a_range_past_the_data_section_is_refused() {
    let header = "{\"a\":{\"dtype\":\"F32\",\"shape\":[4],\"data_offsets\":[0,16]}}";
    let bytes = file(header, &[0u8; 8]);
    assert!(SafeTensors::parse(&bytes).is_err());
}

#[test]
fn each_broken_header_has_its_own_error() {
    let refused = |header: &str| {
        let bytes = file(header, &[0u8; 16]);
        SafeTensors::parse(&bytes).err().unwrap()
    };
    assert_eq!(SafeTensors::parse(&[0u8; 3]).err().unwrap(), TensorError::TooShort);
    assert_eq!(
        SafeTensors::parse(&[9, 0, 0, 0, 0, 0, 0, 0]).err().unwrap(),
        TensorError::HeaderLength(9)
    );
    assert_eq!(refused("[1]"), TensorError::Header);
    assert_eq!(refused("{"), TensorError::Header);
    assert_eq!(refused("{\"a\":{}}"), TensorError::NoDtype("a".to_string()));
    assert_eq!(refused("{\"a\":{\"dtype\":\"F32\"}}"), TensorError::NoShape("a".to_string()));
    assert_eq!(
        refused("{\"a\":{\"dtype\":\"F32\",\"shape\":[-1]}}"),
        TensorError::Dimension("a".to_string())
    );
    assert_eq!(
        refused("{\"a\":{\"dtype\":\"F32\",\"shape\":[4]}}"),
        TensorError::NoOffsets("a".to_string())
    );
    assert_eq!(
        refused("{\"a\":{\"dtype\":\"F32\",\"shape\":[4],\"data_offsets\":[8,4]}}"),
        TensorError::Range("a".to_string(), 8, 4)
    );
    assert_eq!(
        refused("{\"a\":{\"dtype\":\"I8\",\"shape\":[4],\"data_offsets\":[0,4]}}"),
        TensorError::Unread("a".to_string(), "I8".to_string())
    );
    assert!(matches!(
        refused("{\"a\":{\"dtype\":\"F32\",\"shape\":[3],\"data_offsets\":[0,16]}}"),
        TensorError::Unfilled(_, 3, _, 16)
    ));
    let bytes = fixture();
    let held = SafeTensors::parse(&bytes).unwrap();
    assert!(held.tensor("c").err().unwrap().message().contains("'c'"));
}

fn adapter(header: &str, values: &[f32]) -> Vec<u8> {
    let data: Vec<u8> = values.iter().flat_map(|v| v.to_le_bytes()).collect();
    file(header, &data)
}

#[test]
fn a_pair_is_taken_once() {
    let header = "{\"x.lora_A.weight\":{\"dtype\":\"F32\",\"shape\":[1,3],\"data_offsets\":[0,12]},\
                  \"x.lora_B.weight\":{\"dtype\":\"F32\",\"shape\":[2,1],\"data_offsets\":[12,20]},\
                  \"x.alpha\":{\"dtype\":\"F32\",\"shape\":[],\"data_offsets\":[20,24]}}";
    let bytes = adapter(header, &[1.0, 2.0, 3.0, 4.0, 5.0, 0.5]);
    let held = SafeTensors::parse(&bytes).unwrap();
    let mut lora = Lora::open(&held).unwrap();
    assert_eq!(lora.len(), 1);
    assert_eq!(lora.remaining(), vec!["x"]);
    let pair = lora.take("x").unwrap();
    assert_eq!((pair.rank, pair.in_dim, pair.out_dim), (1, 3, 2));
    assert_eq!(numbers(&pair.down), vec![1.0, 2.0, 3.0]);
    assert_eq!(numbers(&pair.up), vec![4.0, 5.0]);
    assert_eq!(pair.alpha, Some(0.5f32.to_bits()));
    assert!(lora.take("x").is_none());
    assert!(lora.is_empty());
}

#[test]
fn broken_adapters_are_refused() {
    let alone = "{\"x.lora_A.weight\":{\"dtype\":\"F32\",\"shape\":[1,1],\"data_offsets\":[0,4]}}";
    let bytes = adapter(alone, &[1.0]);
    let held = SafeTensors::parse(&bytes).unwrap();
    let why = Lora::open(&held).err().unwrap();
    assert!(matches!(&why, LoraError::NoUp(name) if name == "x.lora_A.weight"));
    assert!(why.message("f.safetensors").contains('x'));

    let odd = "{\"x.lora_A.weight\":{\"dtype\":\"F32\",\"shape\":[1,1],\"data_offsets\":[0,4]},\
               \"x.lora_B.weight\":{\"dtype\":\"F32\",\"shape\":[1,2],\"data_offsets\":[4,12]}}";
    let bytes = adapter(odd, &[1.0, 2.0, 3.0]);
    let held = SafeTensors::parse(&bytes).unwrap();
    assert!(matches!(Lora::open(&held).err().unwrap(), LoraError::Shapes(_, _, _)));

    let bytes = adapter("{}", &[]);
    let held = SafeTensors::parse(&bytes).unwrap();
    assert_eq!(Lora::open(&held).err().unwrap(), LoraError::Empty);
}

#[test]
fn only_whole_rows_are_merged_into() {
    let row = row_bytes(GGML_TYPE_Q6_K, 256);
    assert!(check_merge("w", GGML_TYPE_Q6_K, 256, row).is_ok());
    assert!(check_merge("w", GGML_TYPE_Q6_K, 256, row + 1).unwrap_err().contains('w'));
}

#[test]
fn a_cache_is_named_by_what_it_was_made_of() {
    let one = cache_file("model 5 lora 4");
    assert_eq!(one, cache_file("model 5 lora 4"));
    assert_ne!(one, cache_file("model 5 another lora 12"));
    // The first sixteen bytes of the digest of nothing at all.
    assert_eq!(cache_file(""), "e3b0c44298fc1c149afbf4c8996fb924.bin");
    assert_eq!(file_name(&[0xabu8; 32]), format!("{}.bin", "ab".repeat(16)));
}

#[test]
fn what_is_written_reads_back() {
    let header = b"{\"entries\":[]}";
    let front = front_bytes(header);
    assert_eq!(&front[..8], b"ORMERGE1");
    assert_eq!(find_header(&front), Some(16 + header.len()));
    assert_eq!(&front[16..], header);
    assert_eq!(find_header(&front[..front.len() - 1]), None);
    assert_eq!(find_header(b"ORMERGE2\0\0\0\0\0\0\0\0"), None);
}

#[test]
fn placed_tensors_do_not_overlap() {
    let lens = vec![100usize, 1, 4096];
    let start = data_start(10).unwrap();
    assert_eq!(start, 64);
    assert_eq!(data_start(usize::MAX - 20), None);
    assert!(place(&vec![usize::MAX, 1], 64).is_none());
    let offsets = place(&lens, start).unwrap();
    assert!(offsets[0] >= start);
    for i in 1..3 {
        assert!(offsets[i] >= offsets[i - 1] + lens[i - 1]);
    }
    let (pads, total) = paddings(10, &offsets, &lens).unwrap();
    assert_eq!(16 + 10 + pads[0], offsets[0]);
    assert_eq!(total, offsets[2] + lens[2]);
    // A header that outgrew its room.
    assert!(paddings(start, &offsets, &lens).is_none());
}

#[test]
fn entries_are_found_by_name_type_and_shape() {
    let entry = |name: &str, offset: usize| MergedEntry {
        name: name.to_string(),
        ggml_type: 14,
        in_dim: 256,
        out_dim: 3,
        offset,
        len: 8,
    };
    let entries = vec![entry("blk.to_q", 0), entry("blk.to_k", 8)];
    assert_eq!(find_entry(&entries, "blk.to_k", 14, 256, 3), Some(1));
    assert_eq!(find_entry(&entries, "blk.to_v", 14, 256, 3), None);
    assert_eq!(find_entry(&entries, "blk.to_k", 12, 256, 3), None);
    assert_eq!(find_entry(&entries, "blk.to_k", 14, 256, 4), None);
    assert!(entries_fit(&entries, 16));
    assert!(!entries_fit(&entries, 15));
}

#[test]
fn json_values_are_read_by_what_they_hold() {
    let json = Json::parse(b"{\"b\":[1,\"x\",true],\"a\":{\"n\":1.5}}").unwrap();
    let list = json.get("b").unwrap().as_array().unwrap();
    assert_eq!(list[0].as_u64(), Some(1));
    assert_eq!(list[1].as_str(), Some("x"));
    assert_eq!(list[2].as_bool(), Some(true));
    assert_eq!(list[1].as_u64(), None);
    let fields = json.get("a").unwrap().as_object().unwrap();
    assert_eq!(fields[0].0, "n");
    assert!(matches!(&fields[0].1, Json::Number(None, text) if text == "1.5"));
    assert!(json.get("c").is_none());
    assert!(Json::parse(b"{").is_none());
    // Keys come in order.
    assert_eq!(json.as_object().unwrap()[0].0, "a");
    let deep = "[".repeat(127) + &"]".repeat(127);
    assert!(Json::parse(deep.as_bytes()).is_some());
    let deeper = "[".repeat(128) + &"]".repeat(128);
    assert!(Json::parse(deeper.as_bytes()).is_none());
}

fn known(path: &str, len: u64) -> FileIdentity {
    FileIdentity { path: path.to_string(), len: Some(len), mtime: Some(7) }
}

/// A file as it is written to disk.
fn on_disk(plan: &Flush, rows: &[&[u8]]) -> Vec<u8> {
    let mut file = plan.front.clone();
    for (pad, row) in plan.pads.iter().zip(rows) {
        file.extend(vec![0u8; *pad]);
        file.extend_from_slice(row);
    }
    file
}

/// A merged matrix written to the cache comes back byte-identical, keyed by both files'
/// identities: the same pair hits, a changed adapter misses.
#[test]
fn the_merged_cache_round_trips_and_keys_on_both_files() {
    let bytes: Vec<u8> = (0..row_bytes(GGML_TYPE_Q6_K, 256) * 3).map(|i| (i % 251) as u8).collect();
    let open = |lora_len: u64, file: Option<&[u8]>| {
        MergedCache::open(known("/m/model.gguf", 5), known("/m/lora.safetensors", lora_len), file)
    };
    let mut cache = open(4, None);
    assert!(!cache.is_hit());
    cache.put("blk.to_q", GGML_TYPE_Q6_K, 256, 3, bytes.len());
    let plan = cache.flush().unwrap().unwrap();
    assert!(plan.total > 0);
    let file = on_disk(&plan, &[&bytes]);
    assert_eq!(file.len(), plan.total);
    cache.flushed();
    assert!(cache.flush().unwrap().is_none());

    let again = open(4, Some(&file));
    assert!(again.is_hit());
    let (offset, len) = again.get("blk.to_q", GGML_TYPE_Q6_K, 256, 3).expect("cached");
    assert_eq!(offset % 64, 0);
    assert_eq!(&file[offset..offset + len], &bytes[..]);
    assert!(again.get("blk.to_k", GGML_TYPE_Q6_K, 256, 3).is_none());
    assert!(again.get("blk.to_q", GGML_TYPE_Q6_K, 256, 4).is_none());

    assert!(!open(12, Some(&file)).is_hit());
    assert_ne!(open(12, None).path(), again.path());
    // Cut short, the file no longer holds what it lists.
    assert!(!open(4, Some(&file[..file.len() - 1])).is_hit());
}

#[test]
fn a_cache_header_is_written_and_read_by_its_fields() {
    let identity = || identity_of(&known("m", 1), &known("l", 2));
    let text = identity().to_string();
    assert_eq!(
        text,
        "{\"lora\":{\"len\":2,\"mtime\":7,\"path\":\"l\"},\
         \"model\":{\"len\":1,\"mtime\":7,\"path\":\"m\"},\"version\":1}"
    );
    assert_eq!(cache_name(&known("m", 1), &known("l", 2)), cache_file(&text));
    let gone = FileIdentity { path: "m".to_string(), len: None, mtime: None };
    assert!(identity_of(&gone, &gone).to_string().contains("\"len\":null"));
    let entry = MergedEntry {
        name: "w".to_string(),
        ggml_type: 14,
        in_dim: 256,
        out_dim: 3,
        offset: 0,
        len: 100,
    };
    let (header, list) = lay_out(identity(), vec![entry.clone(), entry]).unwrap();
    let header = String::from_utf8(header).unwrap();
    assert!(header.starts_with("{\"identity\":{\"lora\""));
    assert!(header.contains(
        "{\"ggml_type\":14,\"in_dim\":256,\"len\":100,\"name\":\"w\",\"offset\":320,\"out_dim\":3}"
    ));
    assert_eq!((list[0].offset, list[1].offset), (320, 448));

    let id = Json::of_value(identity());
    let with = |tensors: &str| {
        let header = format!("{{\"identity\":{text},\"tensors\":{tensors}}}");
        let mut file = front_bytes(header.as_bytes());
        file.resize(4096, 0);
        read_cache(&file, &id)
    };
    assert_eq!(with("[]").unwrap().len(), 0);
    let whole = "{\"name\":\"w\",\"ggml_type\":14,\"in_dim\":1,\"out_dim\":1,\"offset\":0,\"len\":9,\"x\":1}";
    assert_eq!(with(&format!("[{whole}]")).unwrap()[0].len, 9);
    assert_eq!(with("[[\"w\",14,1,2,0,9]]").unwrap()[0].out_dim, 2);
    for bad in [
        "{}",
        "[[\"w\",14,1,2,0]]",
        "[[\"w\",4294967296,1,2,0,9]]",
        "[[\"w\",14,1,2,0,-9]]",
        "[[\"w\",14,1,2,4090,9]]",
        "[{\"name\":\"w\"}]",
    ] {
        assert!(with(bad).is_none(), "{bad}");
    }
    let mut other = front_bytes(b"{\"tensors\":[]}");
    other.resize(128, 0);
    assert!(read_cache(&other, &id).is_none());
}

#[test]
fn an_object_that_stands_for_another_value_is_read_as_that_value() {
    let inner = format!("{}{}", "[".repeat(127), "]".repeat(127));
    let deep = format!(
        "{}{{\"$serde_json::private::RawValue\":\"{inner}\"}}{}",
        "[".repeat(126),
        "]".repeat(126)
    );
    let mut json = Json::parse(deep.as_bytes()).unwrap();
    let mut levels = 0;
    while let Json::Array(mut items) = json {
        levels += 1;
        json = items.pop().unwrap_or(Json::Null);
    }
    assert_eq!(levels, 253);
}

/// However long the header is, the data starts behind it.
#[test]
fn every_length_of_header_leaves_room_for_itself() {
    for n in 0..64 {
        let name = "w".repeat(n);
        let open = |file: Option<&[u8]>| MergedCache::open(known("m", 5), known("l", 4), file);
        let mut cache = open(None);
        cache.put(&name, 14, 256, 1, 3);
        let plan = cache.flush().unwrap().unwrap();
        let file = on_disk(&plan, &[b"abc"]);
        let again = open(Some(&file));
        let (offset, len) = again.get(&name, 14, 256, 1).unwrap();
        assert_eq!(&file[offset..offset + len], b"abc");
    }
}

/// To a file's reader every name is an ordinary one.
#[test]
fn a_tensor_can_have_any_name() {
    let name = "$serde_json::private::RawValue";
    let header =
        format!("{{\"{name}\":{{\"dtype\":\"F32\",\"shape\":[1],\"data_offsets\":[0,4]}}}}");
    let bytes = file(&header, &2.5f32.to_le_bytes());
    let read = SafeTensors::parse(&bytes).unwrap();
    assert_eq!(numbers(&read.tensor(name).unwrap().0), vec![2.5]);
    assert!(Json::parse_object(b"[]").is_none());
    assert!(Json::parse_object(b"null").is_none());
}
