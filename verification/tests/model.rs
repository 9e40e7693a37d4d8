use oxiwhisper::gguf::align_offset;
use oxiwhisper::model::reader::load_ggml_from_reader;
use oxiwhisper::model::{ModelData, ModelFile, TensorData};
use oxiwhisper::quantize::{QuantType, QuantizedTensor};
use oxiwhisper::WhisperModel;

/// Hyperparameters for a synthetic test model.
struct SyntheticSpec {
    n_vocab: usize,
    n_audio_ctx: usize,
    n_audio_state: usize,
    n_audio_head: usize,
    n_audio_layer: usize,
    n_text_ctx: usize,
    n_text_state: usize,
    n_text_head: usize,
    n_text_layer: usize,
    n_mels: usize,
    ftype: i32,
}

fn default_spec() -> SyntheticSpec {
    SyntheticSpec {
        n_vocab: 51865,
        n_audio_ctx: 1500,
        n_audio_state: 384,
        n_audio_head: 6,
        n_audio_layer: 4,
        n_text_ctx: 448,
        n_text_state: 384,
        n_text_head: 6,
        n_text_layer: 4,
        n_mels: 80,
        ftype: 1,
    }
}

/// Names and shapes of all tensors; `true` for half precision.
fn tensor_descriptors(spec: &SyntheticSpec) -> Vec<(String, Vec<usize>, bool)> {
    let sa = spec.n_audio_state;
    let st = spec.n_text_state;
    let ff = sa * 4;
    let mut d: Vec<(String, Vec<usize>, bool)> = Vec::new();
    let mut put = |name: String, shape: Vec<usize>, half: bool| d.push((name, shape, half));
    put("encoder.conv1.weight".to_string(), vec![3, spec.n_mels, sa], true);
    put("encoder.conv1.bias".to_string(), vec![sa], false);
    put("encoder.conv2.weight".to_string(), vec![3, sa, sa], true);
    put("encoder.conv2.bias".to_string(), vec![sa], false);
    put("encoder.positional_embedding".to_string(), vec![spec.n_audio_ctx, sa], false);
    for i in 0..spec.n_audio_layer {
        let p = format!("encoder.blocks.{i}");
        put(format!("{p}.attn_ln.weight"), vec![sa], false);
        put(format!("{p}.attn_ln.bias"), vec![sa], false);
        put(format!("{p}.attn.query.weight"), vec![sa, sa], true);
        put(format!("{p}.attn.query.bias"), vec![sa], false);
        put(format!("{p}.attn.key.weight"), vec![sa, sa], true);
        put(format!("{p}.attn.value.weight"), vec![sa, sa], true);
        put(format!("{p}.attn.value.bias"), vec![sa], false);
        put(format!("{p}.attn.out.weight"), vec![sa, sa], true);
        put(format!("{p}.attn.out.bias"), vec![sa], false);
        put(format!("{p}.mlp_ln.weight"), vec![sa], false);
        put(format!("{p}.mlp_ln.bias"), vec![sa], false);
        put(format!("{p}.mlp.0.weight"), vec![sa, ff], true);
        put(format!("{p}.mlp.0.bias"), vec![ff], false);
        put(format!("{p}.mlp.2.weight"), vec![ff, sa], true);
        put(format!("{p}.mlp.2.bias"), vec![sa], false);
    }
    put("encoder.ln_post.weight".to_string(), vec![sa], false);
    put("encoder.ln_post.bias".to_string(), vec![sa], false);
    put("decoder.token_embedding.weight".to_string(), vec![st, spec.n_vocab], true);
    put("decoder.positional_embedding".to_string(), vec![st, spec.n_text_ctx], false);
    for i in 0..spec.n_text_layer {
        let p = format!("decoder.blocks.{i}");
        for kind in ["attn", "cross_attn"] {
            put(format!("{p}.{kind}_ln.weight"), vec![st], false);
            put(format!("{p}.{kind}_ln.bias"), vec![st], false);
            put(format!("{p}.{kind}.query.weight"), vec![st, st], true);
            put(format!("{p}.{kind}.query.bias"), vec![st], false);
            put(format!("{p}.{kind}.key.weight"), vec![st, st], true);
            put(format!("{p}.{kind}.value.weight"), vec![st, st], true);
            put(format!("{p}.{kind}.value.bias"), vec![st], false);
            put(format!("{p}.{kind}.out.weight"), vec![st, st], true);
            put(format!("{p}.{kind}.out.bias"), vec![st], false);
        }
        put(format!("{p}.mlp_ln.weight"), vec![st], false);
        put(format!("{p}.mlp_ln.bias"), vec![st], false);
        put(format!("{p}.mlp.0.weight"), vec![st, ff], true);
        put(format!("{p}.mlp.0.bias"), vec![ff], false);
        put(format!("{p}.mlp.2.weight"), vec![ff, st], true);
        put(format!("{p}.mlp.2.bias"), vec![st], false);
    }
    put("decoder.ln.weight".to_string(), vec![st], false);
    put("decoder.ln.bias".to_string(), vec![st], false);
    d
}

fn write_i32_le(buf: &mut Vec<u8>, v: i32) {
    buf.extend_from_slice(&v.to_le_bytes());
}

fn write_header(buf: &mut Vec<u8>, spec: &SyntheticSpec) {
    buf.extend_from_slice(&0x67676D6Cu32.to_le_bytes());
    let counts = [
        spec.n_vocab,
        spec.n_audio_ctx,
        spec.n_audio_state,
        spec.n_audio_head,
        spec.n_audio_layer,
        spec.n_text_ctx,
        spec.n_text_state,
        spec.n_text_head,
        spec.n_text_layer,
        spec.n_mels,
    ];
    for n in counts {
        write_i32_le(buf, n as i32);
    }
    write_i32_le(buf, spec.ftype);
}

fn write_mel_filters(buf: &mut Vec<u8>, rows: usize, cols: usize) {
    write_i32_le(buf, rows as i32);
    write_i32_le(buf, cols as i32);
    for i in 0..rows * cols {
        let center = ((i / cols) as f32 + 0.5) * cols as f32 / rows as f32;
        let dist = ((i % cols) as f32 - center).abs();
        let width = cols as f32 / rows as f32;
        let val: f32 = if dist < width { (1.0 - dist / width) * 0.01 } else { 0.0 };
        buf.extend_from_slice(&val.to_le_bytes());
    }
}

fn write_tensor_header(buf: &mut Vec<u8>, name: &str, shape: &[i32], dtype: i32) {
    write_i32_le(buf, shape.len() as i32);
    write_i32_le(buf, name.len() as i32);
    write_i32_le(buf, dtype);
    for d in shape {
        write_i32_le(buf, *d);
    }
    buf.extend_from_slice(name.as_bytes());
}

/// A deterministic value in `[-0.01, 0.01]` for the low bits of a hash.
fn deterministic_value(low: u16) -> f32 {
    let frac = (low as f32) / 65535.0;
    (frac - 0.5) * 0.02
}

/// FNV-1a string hash.
fn simple_hash(s: &str) -> u64 {
    let mut h: u64 = 14695981039346656037;
    for b in s.bytes() {
        h ^= b as u64;
        h = h.wrapping_mul(1099511628211);
    }
    h
}

fn low_bits(name_hash: u64, index: usize) -> u16 {
    (name_hash.wrapping_mul(2654435761).wrapping_add(index as u64) & 0xFFFF) as u16
}

/// A GGML model file with deterministic weights.
fn generate_synthetic_ggml(spec: &SyntheticSpec) -> Vec<u8> {
    let mut buf = Vec::with_capacity(1 << 20);
    write_header(&mut buf, spec);
    write_mel_filters(&mut buf, spec.n_mels, 201);
    write_i32_le(&mut buf, spec.n_vocab as i32);
    for i in 0..spec.n_vocab {
        let token = format!("<|{i}|>");
        write_i32_le(&mut buf, token.len() as i32);
        buf.extend_from_slice(token.as_bytes());
    }
    let singles: Vec<[u8; 4]> =
        (0..=u16::MAX).map(|b| deterministic_value(b).to_le_bytes()).collect();
    let halves: Vec<[u8; 2]> =
        (0..=u16::MAX).map(|b| half::f16::from_f32(deterministic_value(b)).to_le_bytes()).collect();
    for (name, shape, half) in tensor_descriptors(spec) {
        let dims: Vec<i32> = shape.iter().map(|d| *d as i32).collect();
        write_tensor_header(&mut buf, &name, &dims, if half { 1 } else { 0 });
        let hash = simple_hash(&name);
        let n: usize = shape.iter().product();
        for i in 0..n {
            let low = low_bits(hash, i) as usize;
            if half {
                buf.extend_from_slice(&halves[low]);
            } else {
                buf.extend_from_slice(&singles[low]);
            }
        }
    }
    buf
}

fn load(bytes: &[u8]) -> Result<ModelData, String> {
    match ModelData::load_from_reader(bytes) {
        Ok(ModelFile::Ggml(m)) => Ok(m),
        Ok(ModelFile::Gguf) => panic!("unexpected format"),
        Err(e) => Err(e),
    }
}

fn load_test_model() -> ModelData {
    load(&generate_synthetic_ggml(&default_spec())).ok().expect("failed to load synthetic model")
}

#[test]
fn test_get_missing_tensor() {
    let model = load_test_model();
    let result = model.get("nonexistent_tensor_name");
    assert!(
        result.is_err(),
        "get() should return Err for missing tensor"
    );
    let err_msg = result.expect_err("expected error");
    assert!(
        err_msg.contains("Missing tensor"),
        "error message should mention 'Missing tensor', got: {err_msg}"
    );
}

#[test]
fn test_try_get_missing_returns_none() {
    let model = load_test_model();
    assert!(
        model.try_get("nonexistent").is_none(),
        "try_get() should return None for missing tensor"
    );
}

#[test]
fn test_get_quantized_missing_returns_none() {
    let model = load_test_model();
    assert!(
        model.get_quantized("nonexistent").is_none(),
        "get_quantized() should return None for missing tensor"
    );
}

#[test]
fn test_model_hparams_consistency() {
    let model = load_test_model();
    let hp = &model.hparams;
    assert!(hp.n_vocab > 0, "n_vocab should be positive");
    assert!(hp.n_mels > 0, "n_mels should be positive");
    assert!(hp.n_audio_ctx > 0, "n_audio_ctx should be positive");
    assert!(hp.n_audio_state > 0, "n_audio_state should be positive");
    assert!(hp.n_audio_head > 0, "n_audio_head should be positive");
    assert!(hp.n_audio_layer > 0, "n_audio_layer should be positive");
    assert!(hp.n_text_ctx > 0, "n_text_ctx should be positive");
    assert!(hp.n_text_state > 0, "n_text_state should be positive");
    assert!(hp.n_text_head > 0, "n_text_head should be positive");
    assert!(hp.n_text_layer > 0, "n_text_layer should be positive");
    // Verify audio_state is divisible by audio_head
    assert_eq!(
        hp.n_audio_state % hp.n_audio_head,
        0,
        "n_audio_state should be divisible by n_audio_head"
    );
    assert_eq!(
        hp.n_text_state % hp.n_text_head,
        0,
        "n_text_state should be divisible by n_text_head"
    );
}

#[test]
fn test_gguf_malformed_magic() {
    let bad = [0x00u8, 0x01, 0x02, 0x03];
    let result = load(&bad);
    assert!(result.is_err(), "bad magic should fail");
    let err = result.err().expect("expected error");
    assert!(
        err.to_lowercase().contains("invalid magic") || err.contains("magic"),
        "error should mention magic, got: {err}"
    );
}

#[test]
fn test_gguf_alignment_math() {
    assert_eq!(align_offset(0, 32), 0);
    assert_eq!(align_offset(1, 32), 32);
    assert_eq!(align_offset(31, 32), 32);
    assert_eq!(align_offset(32, 32), 32);
    assert_eq!(align_offset(33, 32), 64);
    assert_eq!(align_offset(0, 64), 0);
    assert_eq!(align_offset(64, 64), 64);
    assert_eq!(align_offset(65, 64), 128);
}

/// A model with one vocabulary entry per text and no mel filters but one.
fn small_file(vocab: &[&[u8]]) -> Vec<u8> {
    let spec = SyntheticSpec {
        n_vocab: 1,
        n_audio_ctx: 2,
        n_audio_state: 3,
        n_audio_head: 4,
        n_audio_layer: 5,
        n_text_ctx: 6,
        n_text_state: 7,
        n_text_head: 8,
        n_text_layer: 9,
        n_mels: 10,
        ftype: -11,
    };
    let mut b = Vec::new();
    write_header(&mut b, &spec);
    write_i32_le(&mut b, 1);
    write_i32_le(&mut b, 1);
    b.extend_from_slice(&1.5f32.to_le_bytes());
    write_i32_le(&mut b, vocab.len() as i32);
    for v in vocab {
        write_i32_le(&mut b, v.len() as i32);
        b.extend_from_slice(v);
    }
    b
}

fn failure(bytes: &[u8]) -> String {
    load(bytes).err().expect("expected a failure")
}

#[test]
fn written_models_are_read_back() {
    let mut b = small_file(&[b"caf\xC3\xA9", b"\xFF", b""]);
    write_tensor_header(&mut b, "single\0\0", &[2, 1], 0);
    b.extend_from_slice(&[1, 0, 0, 0, 0, 0, 0x80, 0x3F]);
    write_tensor_header(&mut b, "half", &[3], 1);
    b.extend_from_slice(&[1, 2, 3, 4, 5, 6]);
    write_tensor_header(&mut b, "blocks", &[32], 3);
    b.extend_from_slice(&[7; 34]);
    b.extend_from_slice(&[9, 9, 9]);
    let m = load(&b).ok().expect("well-formed");
    assert_eq!(m.hparams.n_vocab, 1);
    assert_eq!(m.hparams.n_audio_ctx, 2);
    assert_eq!(m.hparams.n_audio_state, 3);
    assert_eq!(m.hparams.n_audio_head, 4);
    assert_eq!(m.hparams.n_audio_layer, 5);
    assert_eq!(m.hparams.n_text_ctx, 6);
    assert_eq!(m.hparams.n_text_state, 7);
    assert_eq!(m.hparams.n_text_head, 8);
    assert_eq!(m.hparams.n_text_layer, 9);
    assert_eq!(m.hparams.n_mels, 10);
    assert_eq!(m.hparams.ftype, -11);
    assert_eq!(m.mel_filters, vec![1.5f32.to_bits()]);
    let texts: Vec<&str> = m.vocab.iter().map(|v| v.text.as_str()).collect();
    assert_eq!(texts, vec!["café", "\u{FFFD}", ""]);
    assert_eq!(m.tensors.len(), 3);
    let single = m.get("single").expect("present");
    assert_eq!(single.shape, vec![2, 1]);
    assert!(matches!(&single.data, TensorData::Single(v) if *v == vec![1, 0x3F80_0000]));
    let half = m.try_get("half").expect("present");
    assert!(matches!(&half.data, TensorData::Half(v) if *v == vec![0x0201, 0x0403, 0x0605]));
    let blocks = m.get("blocks").expect("present");
    assert!(matches!(&blocks.data, TensorData::Blocks(QuantType::Q8_0, v) if *v == vec![7; 34]));
    assert!(m.try_get_quantized("blocks").is_none());
}

#[test]
fn large_matrices_stay_in_their_blocks() {
    let kinds = [(2, QuantType::Q4_0, 18), (3, QuantType::Q8_0, 34), (6, QuantType::Q5_0, 22)];
    for (dtype, qtype, bytes) in kinds {
        let mut b = small_file(&[]);
        write_tensor_header(&mut b, "w", &[32, 33], dtype);
        b.extend_from_slice(&vec![5; 33 * bytes]);
        write_tensor_header(&mut b, "v", &[32, 32], dtype);
        b.extend_from_slice(&vec![6; 32 * bytes]);
        let m = load(&b).ok().expect("well-formed");
        let w = m.get_quantized("w").expect("large");
        assert_eq!((w.qtype, w.raw.len(), w.shape.as_slice()), (qtype, 33 * bytes, &[32, 33][..]));
        assert!(m.try_get("w").is_none());
        assert!(m.get("v").is_ok());
    }
}

#[test]
fn a_later_tensor_replaces_an_earlier_one() {
    let mut b = small_file(&[]);
    for v in [1u32, 2] {
        write_tensor_header(&mut b, "x", &[1], 0);
        b.extend_from_slice(&v.to_le_bytes());
    }
    let m = load(&b).ok().expect("well-formed");
    assert_eq!(m.tensors.len(), 1);
    assert!(matches!(&m.get("x").expect("present").data, TensorData::Single(v) if *v == vec![2]));
}

#[test]
fn malformed_models_are_reported() {
    assert_eq!(failure(b"lmg"), "read magic: failed to fill whole buffer");
    assert_eq!(failure(b"lmgg\0"), "read_i32: failed to fill whole buffer");
    assert_eq!(
        failure(&0xDEADBEEFu32.to_be_bytes()),
        "Invalid magic: unknown format [de, ad, be, ef]"
    );
    let full = small_file(&[b"abc"]);
    assert_eq!(failure(&full[..58]), "read_f32_slice: failed to fill whole buffer");
    assert_eq!(failure(&full[..62]), "read_i32: failed to fill whole buffer");
    assert_eq!(failure(&full[..66]), "read_i32: failed to fill whole buffer");
    assert_eq!(failure(&full[..70]), "read vocab: failed to fill whole buffer");
    let tensor = |dtype: i32, data: usize| {
        let mut b = small_file(&[]);
        write_tensor_header(&mut b, "name", &[32, 2], dtype);
        b.extend_from_slice(&vec![0; data]);
        b
    };
    let named = tensor(0, 0);
    assert_eq!(failure(&named[..named.len() - 1]), "read tensor name: failed to fill whole buffer");
    assert_eq!(failure(&named[..named.len() - 5]), "read_i32: failed to fill whole buffer");
    assert_eq!(failure(&tensor(0, 255)), "read_f32_slice: failed to fill whole buffer");
    assert_eq!(failure(&tensor(1, 127)), "read f16 data: failed to fill whole buffer");
    assert_eq!(failure(&tensor(2, 35)), "read Q4_0 data: failed to fill whole buffer");
    assert_eq!(failure(&tensor(6, 43)), "read Q5_0 data: failed to fill whole buffer");
    assert_eq!(failure(&tensor(3, 67)), "read Q8_0 data: failed to fill whole buffer");
    assert_eq!(failure(&tensor(-4, 0)), "Unsupported tensor dtype: -4 for name");
}

#[test]
fn absurd_sizes_are_refused() {
    let mut b = small_file(&[]);
    write_tensor_header(&mut b, "huge", &[-1, -1, -1], 0);
    assert_eq!(failure(&b), "read_f32_slice: failed to fill whole buffer");
    let mut c = small_file(&[]);
    write_tensor_header(&mut c, "none", &[-1, 0], 0);
    assert!(load(&c).is_ok());
}

#[test]
fn a_gguf_file_is_recognised() {
    assert!(matches!(ModelData::load_from_reader(b"GGUF\x03"), Ok(ModelFile::Gguf)));
    assert!(matches!(WhisperModel::from_bytes(b"GGUF"), Ok(None)));
}

#[test]
fn models_can_be_shared() {
    let m = WhisperModel::from_bytes(&small_file(&[b"a"])).expect("well-formed").expect("GGML");
    assert_eq!(m.data().vocab[0].text, "a");
    assert_eq!(WhisperModel::from_bytes(b"xyzw").err().expect("unknown").len(), 46);
    let data = load_ggml_from_reader(&small_file(&[b"a", b"b"])).ok().expect("well-formed");
    assert_eq!(WhisperModel::from_data(data).data().vocab.len(), 2);
}

#[test]
fn offsets_without_an_alignment_stay() {
    assert_eq!(align_offset(7, 0), 7);
    assert_eq!(align_offset(7, 1), 7);
    assert_eq!(align_offset(u64::MAX - 1, 3), u64::MAX);
}

#[test]
fn rows_of_quantized_matrices_are_adjacent() {
    let t = QuantizedTensor {
        raw: (0..68).collect(),
        shape: vec![32, 2],
        qtype: QuantType::Q8_0,
    };
    assert_eq!(t.numel(), 64);
    assert_eq!((t.block_size(), t.block_bytes()), (32, 34));
    assert_eq!(t.row_elements(), 32);
    assert_eq!((t.row_byte_offset(0), t.row_byte_offset(1)), (0, 34));
    assert_eq!(t.row_bytes(0), &(0..34).collect::<Vec<u8>>()[..]);
    assert_eq!(t.row_bytes(1), &(34..68).collect::<Vec<u8>>()[..]);
    let flat = QuantizedTensor { raw: vec![0; 36], shape: vec![64], qtype: QuantType::Q4_0 };
    assert_eq!(flat.row_elements(), 64);
    assert_eq!(flat.row_bytes(0).len(), 36);
    let other = QuantizedTensor { raw: vec![], shape: vec![], qtype: QuantType::Q5_0 };
    assert_eq!((other.block_size(), other.block_bytes(), other.numel()), (32, 22, 1));
}
