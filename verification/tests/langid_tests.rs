use langid::DecodeError;
use langid::Error;
use langid::Model;

/// Append a little-endian u32.
fn push_u32(out: &mut Vec<u8>, v: u32) {
    out.extend_from_slice(&v.to_le_bytes());
}

/// Append the bit pattern of an f32, little-endian.
fn push_f32(out: &mut Vec<u8>, v: f32) {
    out.extend_from_slice(&v.to_bits().to_le_bytes());
}

/// Encode a model blob from its parts.
fn encode_model(
    ptc: &[Vec<f32>],
    pc: &[f32],
    nextmove: &[u16],
    classes: &[&str],
    output: &[(u32, Vec<i32>)],
) -> Vec<u8> {
    let mut out = Vec::new();
    let rows = ptc.len() as u32;
    let cols = if ptc.is_empty() { pc.len() as u32 } else { ptc[0].len() as u32 };
    push_u32(&mut out, rows);
    push_u32(&mut out, cols);
    for row in ptc {
        for &v in row {
            push_f32(&mut out, v);
        }
    }
    push_u32(&mut out, pc.len() as u32);
    for &v in pc {
        push_f32(&mut out, v);
    }
    push_u32(&mut out, nextmove.len() as u32);
    for &v in nextmove {
        out.extend_from_slice(&v.to_le_bytes());
    }
    push_u32(&mut out, classes.len() as u32);
    for c in classes {
        push_u32(&mut out, c.len() as u32);
        out.extend_from_slice(c.as_bytes());
    }
    push_u32(&mut out, output.len() as u32);
    for (key, vals) in output {
        push_u32(&mut out, *key);
        push_u32(&mut out, vals.len() as u32);
        for &v in vals {
            out.extend_from_slice(&v.to_le_bytes());
        }
    }
    out
}

/// A 3-feature, 2-class model over the letters 'a' and 'b': from every
/// state, 'a' leads to state 1 (firing feature 0) and 'b' to state 2
/// (firing features 1 and 2); everything else leads to the sink state 0.
fn ab_model_bytes() -> Vec<u8> {
    let mut nextmove = vec![0u16; 3 * 256];
    for state in 0..3usize {
        nextmove[state * 256 + 'a' as usize] = 1;
        nextmove[state * 256 + 'b' as usize] = 2;
    }
    encode_model(
        &[
            vec![-1.0, -3.0],
            vec![-2.0, -1.5],
            vec![-2.5, -2.0],
        ],
        &[-0.5, -1.0],
        &nextmove,
        &["en", "fr"],
        &[(1, vec![0]), (2, vec![1, 2])],
    )
}

fn chars(text: &str) -> Vec<char> {
    text.chars().collect()
}

/// The unverified scoring kernel, as a caller of the library would write
/// it: the dot product of the feature counts with the likelihood table,
/// plus the priors, on the decoded f32 values.
fn class_scores(m: &Model, fv: &[u16]) -> Vec<u32> {
    let data = m.data();
    let n = data.nb_pc.len();
    let mut pdc = vec![0f32; n];
    for (i, &count) in fv.iter().enumerate() {
        for j in 0..n {
            pdc[j] += (count as f32) * f32::from_bits(data.nb_ptc[i][j]);
        }
    }
    for j in 0..n {
        pdc[j] += f32::from_bits(data.nb_pc[j]);
    }
    pdc.iter().map(|p| p.to_bits()).collect()
}

fn classify_text(m: &Model, text: &str) -> Option<(String, f32)> {
    let fv = m.instance2fv(&chars(text));
    let probs = m.apply_norm_probs(class_scores(m, &fv));
    let (idx, best) = m.pick_best(&probs)?;
    Some((m.data().nb_classes[idx].clone(), f32::from_bits(best)))
}

fn rank_text(m: &Model, text: &str) -> Vec<(String, f32)> {
    let fv = m.instance2fv(&chars(text));
    let probs = m.apply_norm_probs(class_scores(m, &fv));
    m.rank_scored(&probs)
        .into_iter()
        .map(|(idx, bits)| (m.data().nb_classes[idx].clone(), f32::from_bits(bits)))
        .collect()
}

#[test]
fn decode_round_trip() {
    let bytes = ab_model_bytes();
    let m = Model::load(&bytes).ok().expect("well-formed blob");
    let data = m.data();
    assert_eq!(data.nb_classes, vec!["en".to_string(), "fr".to_string()]);
    assert_eq!(m.num_feats(), 3);
    assert_eq!(data.nb_pc, vec![(-0.5f32).to_bits(), (-1.0f32).to_bits()]);
    assert_eq!(data.nb_ptc.len(), 3);
    assert_eq!(data.nb_ptc[0], vec![(-1.0f32).to_bits(), (-3.0f32).to_bits()]);
    assert_eq!(m.transitions().len(), 3 * 256);
    assert_eq!(m.emissions(1), vec![0]);
    assert_eq!(m.emissions(2), vec![1, 2]);
    assert_eq!(m.emissions(0), Vec::<i32>::new());

    // Re-encode from the decoded tables; the bytes must match exactly.
    let ptc: Vec<Vec<f32>> = data
        .nb_ptc
        .iter()
        .map(|row| row.iter().map(|&b| f32::from_bits(b)).collect())
        .collect();
    let pc: Vec<f32> = data.nb_pc.iter().map(|&b| f32::from_bits(b)).collect();
    let reencoded = encode_model(
        &ptc,
        &pc,
        m.transitions(),
        &["en", "fr"],
        &[(1, m.emissions(1)), (2, m.emissions(2))],
    );
    assert_eq!(reencoded, bytes);
}

#[test]
fn decode_truncated() {
    let bytes = ab_model_bytes();
    for cut in [0, 3, 10, bytes.len() - 1] {
        let short = bytes[..cut].to_vec();
        assert_eq!(Model::load(&short).err().unwrap(), DecodeError::Truncated);
    }
}

#[test]
fn decode_trailing_bytes() {
    let mut bytes = ab_model_bytes();
    bytes.push(0);
    assert_eq!(Model::load(&bytes).err().unwrap(), DecodeError::TrailingBytes);
}

#[test]
fn decode_bad_utf8() {
    let mut nextmove = vec![0u16; 256];
    let mut bytes = Vec::new();
    nextmove[0] = 0;
    push_u32(&mut bytes, 1);
    push_u32(&mut bytes, 2);
    push_f32(&mut bytes, 0.0);
    push_f32(&mut bytes, 0.0);
    push_u32(&mut bytes, 2);
    push_f32(&mut bytes, 0.0);
    push_f32(&mut bytes, 0.0);
    push_u32(&mut bytes, nextmove.len() as u32);
    for &v in &nextmove {
        bytes.extend_from_slice(&v.to_le_bytes());
    }
    push_u32(&mut bytes, 2);
    push_u32(&mut bytes, 1);
    bytes.push(0xff); // not UTF-8
    push_u32(&mut bytes, 1);
    bytes.extend_from_slice(b"b");
    push_u32(&mut bytes, 0);
    assert_eq!(Model::load(&bytes).err().unwrap(), DecodeError::BadUtf8);
}

#[test]
fn decode_state_key_too_large() {
    let bytes = encode_model(
        &[vec![0.0, 0.0]],
        &[0.0, 0.0],
        &[0u16; 256],
        &["en", "fr"],
        &[(0x1_0000, vec![0])],
    );
    assert_eq!(Model::load(&bytes).err().unwrap(), DecodeError::StateKeyTooLarge);
}

#[test]
fn decode_bad_dimensions() {
    // Prior vector length disagrees with the table's column count.
    let bytes = encode_model(&[vec![0.0, 0.0]], &[0.0], &[0u16; 256], &["en"], &[]);
    assert_eq!(Model::load(&bytes).err().unwrap(), DecodeError::BadDimensions);
    // Class count disagrees.
    let bytes = encode_model(&[vec![0.0, 0.0]], &[0.0, 0.0], &[0u16; 256], &["en"], &[]);
    assert_eq!(Model::load(&bytes).err().unwrap(), DecodeError::BadDimensions);
    // Zero classes everywhere: the feature count would be division by zero.
    let bytes = encode_model(&[], &[], &[0u16; 256], &[], &[]);
    assert_eq!(Model::load(&bytes).err().unwrap(), DecodeError::BadDimensions);
}

#[test]
fn tokenize_counts_features() {
    let m = Model::load(&ab_model_bytes()).ok().unwrap();
    assert_eq!(m.instance2fv(&chars("ab")), vec![1, 1, 1]);
    assert_eq!(m.instance2fv(&chars("aab")), vec![2, 1, 1]);
    assert_eq!(m.instance2fv(&chars("bba")), vec![1, 2, 2]);
    // Characters without a transition go to the sink and fire nothing.
    assert_eq!(m.instance2fv(&chars("xyz")), vec![0, 0, 0]);
    assert_eq!(m.instance2fv(&chars("a\u{1F600}b")), vec![1, 1, 1]);
}

#[test]
fn tokenize_empty_input_is_all_zero() {
    let m = Model::load(&ab_model_bytes()).ok().unwrap();
    assert_eq!(m.instance2fv(&chars("")), vec![0, 0, 0]);
}

#[test]
fn tokenize_out_of_range_feature_indices_are_dropped() {
    // State 1 fires indices 5 and -1: neither has a slot in a 1-feature
    // vector, and neither may be written anywhere else.
    let mut nextmove = vec![0u16; 2 * 256];
    nextmove['a' as usize] = 1;
    nextmove[256 + 'a' as usize] = 1;
    let bytes = encode_model(
        &[vec![0.0, 0.0]],
        &[0.0, 0.0],
        &nextmove,
        &["en", "fr"],
        &[(1, vec![5, -1])],
    );
    let m = Model::load(&bytes).ok().unwrap();
    assert_eq!(m.instance2fv(&chars("aaa")), vec![0]);
}

#[test]
fn counter_counts_occurrences() {
    let counts = langid::tokenize::counter(&vec![3, -1, 3, 7, 3, -1]);
    assert_eq!(counts.get(&3), Some(&3u16));
    assert_eq!(counts.get(&-1), Some(&2u16));
    assert_eq!(counts.get(&7), Some(&1u16));
    assert_eq!(counts.get(&0), None);
}

#[test]
fn counter_saturates_at_u16_max() {
    let indexes = vec![9; 70_000];
    let counts = langid::tokenize::counter(&indexes);
    assert_eq!(counts.get(&9), Some(&u16::MAX));
}

#[test]
fn norm_probs_is_identity_while_disabled() {
    let m = Model::load(&ab_model_bytes()).ok().unwrap();
    let scores = vec![1.0f32.to_bits(), 2.0f32.to_bits()];
    assert_eq!(m.apply_norm_probs(scores.clone()), scores);
}

#[test]
fn readers_decode_little_endian() {
    let bytes: Vec<u8> = vec![0x78, 0x56, 0x34, 0x12, 0xcd, 0xab, 0xff, 0xff, 0xff, 0xff];
    let mut pos = 0usize;
    assert_eq!(langid::decode::read_u32(&bytes, &mut pos), Ok(0x1234_5678));
    assert_eq!(langid::decode::read_u16_vec(&bytes, &mut pos, 1), Ok(vec![0xabcd]));
    assert_eq!(langid::decode::read_i32_vec(&bytes, &mut pos, 1), Ok(vec![-1]));
    assert_eq!(pos, 10);
    assert_eq!(
        langid::decode::read_u32(&bytes, &mut pos),
        Err(DecodeError::Truncated)
    );
}

#[test]
fn read_string_decodes_utf8() {
    let mut bytes = Vec::new();
    push_u32(&mut bytes, 5);
    bytes.extend_from_slice("caf\u{e9}".as_bytes());
    let mut pos = 0usize;
    assert_eq!(
        langid::decode::read_string(&bytes, &mut pos),
        Ok("caf\u{e9}".to_string())
    );
    assert_eq!(pos, bytes.len());
}

#[test]
fn pick_best_is_stable_first_maximum() {
    let m = Model::load(&ab_model_bytes()).ok().unwrap();
    let bits = |vals: &[f32]| vals.iter().map(|v| v.to_bits()).collect::<Vec<u32>>();
    // The requires ties score count to class count, so use 2-score lists.
    assert_eq!(m.pick_best(&bits(&[1.0, 3.0])), Some((1, 3.0f32.to_bits())));
    assert_eq!(m.pick_best(&bits(&[2.0, 2.0])), Some((0, 2.0f32.to_bits())));
    assert_eq!(m.pick_best(&bits(&[-1.0, -2.0])), Some((0, (-1.0f32).to_bits())));
    // A NaN is never exceeded and never exceeds: the scan keeps it.
    assert_eq!(
        m.pick_best(&bits(&[f32::NAN, 1.0])),
        Some((0, f32::NAN.to_bits()))
    );
}

#[test]
fn rank_sorts_descending_and_keeps_tie_order() {
    let m = Model::load(&ab_model_bytes()).ok().unwrap();
    let bits = |vals: &[f32]| vals.iter().map(|v| v.to_bits()).collect::<Vec<u32>>();
    let r = m.rank_scored(&bits(&[1.0, 3.0]));
    assert_eq!(r, vec![(1, 3.0f32.to_bits()), (0, 1.0f32.to_bits())]);
    let r = m.rank_scored(&bits(&[2.0, 2.0]));
    assert_eq!(r, vec![(0, 2.0f32.to_bits()), (1, 2.0f32.to_bits())]);
    // An incomparable score is treated as a tie and keeps its place.
    let r = m.rank_scored(&bits(&[f32::NAN, 1.0]));
    assert_eq!(r, vec![(0, f32::NAN.to_bits()), (1, 1.0f32.to_bits())]);
}

#[test]
fn rank_head_agrees_with_classify() {
    let m = Model::load(&ab_model_bytes()).ok().unwrap();
    for text in ["", "ab", "aab", "bbbb", "hello world"] {
        let best = classify_text(&m, text).unwrap();
        let ranked = rank_text(&m, text);
        assert_eq!(ranked[0], best);
        assert_eq!(ranked.len(), 2);
    }
}

#[test]
fn repeated_calls_are_deterministic() {
    let m = Model::load(&ab_model_bytes()).ok().unwrap();
    for text in ["", "ab", "abba"] {
        assert_eq!(m.instance2fv(&chars(text)), m.instance2fv(&chars(text)));
        assert_eq!(classify_text(&m, text), classify_text(&m, text));
        assert_eq!(rank_text(&m, text), rank_text(&m, text));
    }
}

/// A model where "en" has the strictly higher prior and the strictly
/// higher likelihood for every feature the input fires.
fn en_favoring_model() -> Model {
    // Every character leads to state 1, which fires feature 0.
    let nextmove = vec![1u16; 2 * 256];
    let bytes = encode_model(
        &[vec![-1.0, -3.0]],
        &[-1.0, -2.0],
        &nextmove,
        &["en", "fr"],
        &[(1, vec![0])],
    );
    Model::load(&bytes).ok().unwrap()
}

#[test]
fn scenario_en_beats_fr() {
    let m = en_favoring_model();
    let (best, score_en) = classify_text(&m, "hello world").unwrap();
    assert_eq!(best, "en");
    let ranked = rank_text(&m, "hello world");
    assert_eq!(ranked[0].0, "en");
    assert_eq!(ranked[1].0, "fr");
    let score_fr = ranked[1].1;
    assert!(score_en > score_fr);
    // 11 characters, each firing feature 0 once.
    assert_eq!(score_en, 11.0 * -1.0 + -1.0);
    assert_eq!(score_fr, 11.0 * -3.0 + -2.0);
}

#[test]
fn empty_input_returns_highest_prior() {
    let m = en_favoring_model();
    let (best, score) = classify_text(&m, "").unwrap();
    assert_eq!(best, "en");
    // All feature counts are zero, so the score is the prior alone.
    assert_eq!(score, -1.0);
}

fn abc_model() -> Model {
    // Three classes over the two-letter automaton.
    let mut nextmove = vec![0u16; 3 * 256];
    for state in 0..3usize {
        nextmove[state * 256 + 'a' as usize] = 1;
        nextmove[state * 256 + 'b' as usize] = 2;
    }
    let bytes = encode_model(
        &[
            vec![-1.0, -2.0, -3.0],
            vec![-2.0, -1.0, -2.5],
        ],
        &[-0.5, -0.7, -0.9],
        &nextmove,
        &["en", "fr", "de"],
        &[(1, vec![0]), (2, vec![1])],
    );
    Model::load(&bytes).ok().unwrap()
}

#[test]
fn set_langs_rejects_fewer_than_two_distinct() {
    let mut m = abc_model();
    let before = rank_text(&m, "ab");
    assert!(matches!(
        m.set_langs(Some(vec!["en".to_string()])),
        Err(Error::NoLanguage)
    ));
    assert!(matches!(
        m.set_langs(Some(vec!["en".to_string(), "en".to_string()])),
        Err(Error::NoLanguage)
    ));
    assert!(matches!(m.set_langs(Some(vec![])), Err(Error::NoLanguage)));
    // The failed calls left the active state unchanged.
    assert_eq!(rank_text(&m, "ab"), before);
}

#[test]
fn set_langs_rejects_unknown_code() {
    let mut m = abc_model();
    let before = rank_text(&m, "ab");
    match m.set_langs(Some(vec!["en".to_string(), "xx-not-real".to_string()])) {
        Err(Error::UnknownLanguageCode(code)) => assert_eq!(code, "xx-not-real"),
        _ => panic!("expected UnknownLanguageCode"),
    }
    assert_eq!(rank_text(&m, "ab"), before);
}

#[test]
fn set_langs_filters_and_clears() {
    let mut m = abc_model();
    assert!(m.set_langs(Some(vec!["de".to_string(), "en".to_string()])).is_ok());
    // Canonical order is kept: en before de.
    assert_eq!(
        m.data().nb_classes,
        vec!["en".to_string(), "de".to_string()]
    );
    assert_eq!(m.data().nb_pc.len(), 2);
    assert_eq!(m.data().nb_ptc[0].len(), 2);
    assert_eq!(m.num_feats(), 2);
    // Clearing restores the canonical tables.
    assert!(m.set_langs(None).is_ok());
    assert_eq!(m.data().nb_classes.len(), 3);
}

#[test]
fn restriction_keeps_relative_order() {
    let mut m = abc_model();
    let full = rank_text(&m, "ab");
    let filtered_full: Vec<&String> = full
        .iter()
        .map(|(c, _)| c)
        .filter(|c| c.as_str() == "en" || c.as_str() == "de")
        .collect();
    m.set_langs(Some(vec!["en".to_string(), "de".to_string()])).unwrap();
    let restricted = rank_text(&m, "ab");
    // Exactly the requested classes, in the same relative order, with the
    // same scores.
    assert_eq!(restricted.len(), 2);
    for (i, (class, score)) in restricted.iter().enumerate() {
        assert_eq!(class, filtered_full[i]);
        let (_, full_score) = full.iter().find(|(c, _)| c == class).unwrap();
        assert_eq!(score, full_score);
    }
}
