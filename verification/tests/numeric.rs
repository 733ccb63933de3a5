use ds4::ffn::SharedFfnWeights;
use ds4::half::f32_to_f16;
use ds4::hc::{embed_token_f16, hc_from_plain};
use ds4::moe::topk_desc;
use ds4::sampler::{
    argmax, argmax_excluding, drawn_token, drop_below, drop_tail, next_seed, nucleus_cut,
    plan_sample, ranking, SampleAction, Sampler, SPLIT_MIX_STEP,
};
use ds4::shape::N_HC;
use rand::{Rng, RngCore, SeedableRng};
use rand_xoshiro::SplitMix64;

fn bits(x: &[f32]) -> Vec<u32> {
    x.iter().map(|v| v.to_bits()).collect()
}

#[test]
fn embed_token_f16_decodes_row() {
    // Build a tiny 3-row, 4-wide f16 table whose row `t` is [t, t+0.5, t+1, t+1.5].
    let stride = 4usize;
    let n_vocab = 3usize;
    let mut table = vec![0u16; n_vocab * stride];
    for t in 0..n_vocab {
        for i in 0..stride {
            let v = t as f32 + 0.5 * i as f32;
            table[t * stride + i] = f32_to_f16(v.to_bits());
        }
    }

    let mut out = vec![0u32; stride];
    embed_token_f16(&mut out, &table, stride, 2);
    for i in 0..stride {
        let expected = 2.0 + 0.5 * i as f32;
        let got = f32::from_bits(out[i]);
        assert!(
            (got - expected).abs() < 1e-3,
            "row 2 col {i}: got {} expected {}",
            got,
            expected,
        );
    }
}

#[test]
fn hc_from_plain_replicates_then_weighted_sum_recovers() {
    // plain values are unique so we can check all four streams independently.
    let n_embd = 8usize;
    let n_hc = N_HC as usize;
    let plain: Vec<f32> = (0..n_embd).map(|i| (i as f32) * 0.25 - 0.5).collect();

    let mut hc = vec![0.0f32; n_embd * n_hc];
    hc_from_plain(&mut hc, &plain);

    // Each HC stream should be identical to `plain`.
    for h in 0..n_hc {
        for d in 0..n_embd {
            assert_eq!(hc[h * n_embd + d], plain[d]);
        }
    }

    // Weighted sum with weights summing to 1 reproduces `plain`.
    let weights = vec![0.25f32; n_hc];
    for d in 0..n_embd {
        let collapsed: f32 = (0..n_hc).map(|h| hc[h * n_embd + d] * weights[h]).sum();
        assert!((collapsed - plain[d]).abs() < 1e-6);
    }
}

#[test]
fn topk_picks_largest_scores() {
    let scores = [0.1f32, 5.0, -2.0, 4.5, 4.5, 9.0, 0.0, 3.0];
    let mut idx = [-1i32; 4];
    topk_desc(&bits(&scores), 4, &mut idx);
    // Sorted desc: 9.0 @5, 5.0 @1, 4.5 @3 (first 4.5), 4.5 @4.
    assert_eq!(idx, [5, 1, 3, 4]);

    // Sanity: the chosen scores are non-increasing.
    for w in idx.windows(2) {
        let a = scores[w[0] as usize];
        let b = scores[w[1] as usize];
        assert!(a >= b);
    }
}

#[test]
fn topk_pads_with_minus_one() {
    let mut idx = [0i32; 3];
    topk_desc(&bits(&[1.0, 2.0]), 3, &mut idx);
    assert_eq!(idx, [1, 0, -1]);
    let mut none: [i32; 0] = [];
    topk_desc(&bits(&[1.0]), 0, &mut none);
}

#[test]
fn argmax_takes_the_first_of_the_highest() {
    assert_eq!(argmax(&bits(&[1.0, 3.0, 3.0, 2.0])), 1);
    assert_eq!(argmax(&bits(&[-0.0, 0.0])), 0);
    assert_eq!(argmax(&bits(&[-1.0, f32::NAN, 5.0])), 2);
    assert_eq!(argmax(&bits(&[f32::NAN, 5.0])), 0);
    assert_eq!(argmax(&bits(&[f32::NEG_INFINITY])), 0);
}

#[test]
fn argmax_excluding_passes_over_one_token() {
    assert_eq!(argmax_excluding(&bits(&[1.0, 3.0, 2.0]), 1), 2);
    assert_eq!(argmax_excluding(&bits(&[1.0, 3.0, 3.0]), 7), 1);
    assert_eq!(argmax_excluding(&bits(&[1.0]), 0), -1);
    assert_eq!(argmax_excluding(&[], 0), -1);
    assert_eq!(argmax_excluding(&bits(&[f32::NAN, f32::NEG_INFINITY]), 5), -1);
}

#[test]
fn ranking_orders_values() {
    let v = [0.5f32, -1.0, 2.0, 0.5, f32::INFINITY, 0.0, -0.0];
    assert_eq!(ranking(&bits(&v)), vec![4, 2, 0, 3, 5, 6, 1]);
    assert_eq!(ranking(&[]), Vec::<usize>::new());
    // What is no number comes last.
    assert_eq!(ranking(&bits(&[f32::NAN, -1.0, f32::NAN, f32::NEG_INFINITY])), vec![1, 3, 0, 2]);
    let mut kept = bits(&v);
    let order = ranking(&kept);
    drop_tail(&mut kept, &order, 2);
    assert_eq!(kept, bits(&[0.0, 0.0, 2.0, 0.0, f32::INFINITY, 0.0, 0.0]));
}

#[test]
fn seeds_follow_the_generator() {
    // A known first number of the generator.
    assert_eq!(next_seed(1477776061723855037, false), 1985237415132408290);
    for seed in [0u64, 1, 42, u64::MAX] {
        let mut greedy = SplitMix64::seed_from_u64(seed);
        assert_eq!(next_seed(seed, false), greedy.next_u64());
        let mut drawing = SplitMix64::seed_from_u64(seed);
        let _ = drawing.gen::<f32>();
        assert_eq!(next_seed(seed, true), drawing.next_u64());
        assert_eq!(next_seed(seed, true), next_seed(seed.wrapping_add(SPLIT_MIX_STEP), false));
    }
}

#[test]
fn shared_weights_have_fixed_sizes() {
    let wide = vec![0u8; 2048 * 4352];
    let down = vec![0u8; 4096 * 2176];
    assert!(SharedFfnWeights { gate: &wide, up: &wide, down: &down }.is_sized());
    assert!(!SharedFfnWeights { gate: &wide[1..], up: &wide, down: &down }.is_sized());
}

#[test]
fn sampling_decisions() {
    let plan = |t: f32, k: i32, p: f32, m: f32| {
        plan_sample(t.to_bits(), k, p.to_bits(), m.to_bits(), 10)
    };
    assert!(plan(0.0, 0, 1.0, 0.0).greedy && plan(-1.0, 0, 1.0, 0.0).greedy);
    let p = plan(0.8, 5, 0.9, 0.05);
    assert!(!p.greedy && p.nucleus && p.min_p);
    assert_eq!(p.top_k, Some(5));
    let p = plan(f32::NAN, 10, 1.0, -0.0);
    assert!(!p.greedy && !p.nucleus && !p.min_p);
    assert_eq!(p.top_k, None);
    assert_eq!(plan(1.0, -3, 0.0, 0.0).top_k, None);
    assert!(plan(1.0, 0, 0.0, 0.0).nucleus);

    assert_eq!(nucleus_cut(&bits(&[0.5, 0.8, 0.95]), 0.8f32.to_bits()), 2);
    assert_eq!(nucleus_cut(&bits(&[0.5, 0.8, 0.95]), 0.99f32.to_bits()), 3);
    assert_eq!(nucleus_cut(&bits(&[0.5]), 0), 1);

    let mut v = bits(&[0.5, 0.1, 0.3, f32::NAN]);
    drop_below(&mut v, 0.3f32.to_bits());
    assert_eq!(v[..3], bits(&[0.5, 0.0, 0.3])[..]);
    assert!(f32::from_bits(v[3]).is_nan());

    assert_eq!(drawn_token(&bits(&[0.4, 0.1, -0.2, -0.3])), 2);
    assert_eq!(drawn_token(&bits(&[0.4, 0.1])), 1);
    assert_eq!(drawn_token(&bits(&[0.0, 0.1])), 0);
}

#[test]
fn greedy_samples_leave_the_logits_alone() {
    let logits = bits(&[0.5, 3.0, -1.0, 3.0]);
    for t in [0.0f32, -0.0, -2.0] {
        let s = Sampler::start(&logits, t.to_bits(), 2, 0.1f32.to_bits(), 0.9f32.to_bits());
        assert_eq!(s.action(), SampleAction::Finish);
        assert_eq!((s.token(), s.drawn()), (1, false));
        assert_eq!(s.values(), &logits[..]);
    }
}

#[test]
fn samples_go_through_their_stages() {
    let one = 1.0f32.to_bits();
    let probs = [0.4f32, 0.1, 0.3, 0.15, 0.05];
    let mut s = Sampler::start(&bits(&[1.0; 5]), one, 4, 0.8f32.to_bits(), 0.5f32.to_bits());
    assert_eq!(s.action(), SampleAction::Soften);
    s.softened(&bits(&probs));
    // The lowest is gone, and sums are needed from the highest on.
    assert_eq!(s.action(), SampleAction::Accumulate);
    assert_eq!(s.values(), &bits(&[0.4, 0.1, 0.3, 0.15, 0.0])[..]);
    assert_eq!(s.order(), &[0, 2, 3, 1, 4]);
    s.accumulated(&bits(&[0.4, 0.7, 0.85, 0.95, 0.95]));
    assert_eq!(s.action(), SampleAction::Cutoff);
    assert_eq!(s.values(), &bits(&[0.4, 0.0, 0.3, 0.15, 0.0])[..]);
    s.cut_off(0.2f32.to_bits());
    assert_eq!(s.action(), SampleAction::Total);
    assert_eq!(s.values(), &bits(&[0.4, 0.0, 0.3, 0.0, 0.0])[..]);
    s.totalled(0.7f32.to_bits());
    assert_eq!(s.action(), SampleAction::Draw);
    s.drew(&bits(&[0.1, 0.1, -0.2, -0.2, -0.2]));
    assert_eq!((s.action(), s.token(), s.drawn()), (SampleAction::Finish, 2, true));

    // Without truncation the sum comes next; where it is nothing, no number is
    // drawn.
    let mut s = Sampler::start(&bits(&[1.0, 2.0]), one, 0, one, 0);
    s.softened(&bits(&[0.0, 0.0]));
    assert_eq!(s.action(), SampleAction::Total);
    s.totalled(0);
    assert_eq!((s.action(), s.token(), s.drawn()), (SampleAction::Finish, 0, false));
}
