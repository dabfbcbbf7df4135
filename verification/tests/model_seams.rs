use sovereign_os::product_quantization::{check_dim, check_training, subspace_seed, PqError};
use sovereign_os::quant_model::{forward_gate, ExecMode, FoldCaps, ForwardBlock};
use sovereign_os::rmsnorm::{check_input, RmsNormError};

#[test]
fn training_shapes_are_checked_in_order() {
    let fifty = vec![8usize; 50];
    assert_eq!(check_training(&fifty, 3, 16), Err(PqError::NotDivisible { dim: 8, m: 3 }));
    assert_eq!(check_training(&fifty, 4, 0), Err(PqError::BadK(0)));
    assert_eq!(check_training(&fifty, 4, 300), Err(PqError::BadK(300)));
    assert_eq!(check_training(&[], 4, 16), Err(PqError::BadTraining));
    assert_eq!(check_training(&fifty, 4, 16), Ok(2));
    assert_eq!(check_training(&[8, 8, 7], 4, 2), Err(PqError::BadTraining));
    assert_eq!(check_training(&[0, 0], 1, 1), Err(PqError::BadTraining));
    assert_eq!(check_training(&[8, 8], 4, 3), Err(PqError::BadTraining));
    assert_eq!(check_training(&[8, 8], 0, 2), Err(PqError::NotDivisible { dim: 8, m: 0 }));
}

#[test]
fn vectors_of_the_wrong_dimension_are_refused() {
    assert_eq!(check_dim(8, 3), Err(PqError::BadDimension { expected: 8, got: 3 }));
    assert_eq!(check_dim(8, 8), Ok(()));
}

#[test]
fn each_subspace_gets_its_own_seed() {
    assert_eq!(subspace_seed(1, 0), 1);
    assert_eq!(subspace_seed(1, 2), 1 + 2 * 0x9E37);
    assert_eq!(subspace_seed(u64::MAX, 1), 0x9E36);
}

#[test]
fn rmsnorm_input_must_match_dimension() {
    assert_eq!(check_input(4, 3), Err(RmsNormError::DimMismatch { expected: 4, got: 3 }));
    assert_eq!(check_input(4, 4), Ok(()));
}

#[test]
fn exec_mode_defaults_to_cpu_path() {
    assert_eq!(ExecMode::default(), ExecMode::Cpu);
    let caps = FoldCaps::default();
    assert!(!caps.weights && !caps.kv && !caps.embedding);
}

#[test]
fn gpu_fold_never_runs_silently() {
    assert_eq!(forward_gate(ExecMode::Cpu, 1, 8, None), Ok(()));
    let kv = FoldCaps { kv: true, ..FoldCaps::default() };
    assert_eq!(forward_gate(ExecMode::Cpu, 1, 8, Some(kv)), Ok(()));
    assert_eq!(forward_gate(ExecMode::GpuFold, 1, 8, None), Err(ForwardBlock::NoFoldBackend));
    assert_eq!(
        forward_gate(ExecMode::GpuFold, 1, 8, Some(kv)),
        Err(ForwardBlock::FoldRoutingUnwired { caps: kv })
    );
    assert_eq!(
        forward_gate(ExecMode::GpuFold, 99, 8, None),
        Err(ForwardBlock::TokenOutOfRange { token: 99, vocab: 8 })
    );
}

use sovereign_os::quant_model::{step_seed, window_start, DecodeStep, DecodeTurn};

fn drive(max_new: usize, stops: Vec<usize>, samples: &[usize]) -> (Vec<usize>, usize) {
    let mut turn = DecodeTurn::new(max_new, stops);
    let mut streamed = Vec::new();
    let mut used = 0;
    while turn.wants_token() {
        let t = samples[used];
        used += 1;
        match turn.on_sampled(t) {
            DecodeStep::Emit(x) => streamed.push(x),
            DecodeStep::Stop => break,
        }
    }
    assert_eq!(turn.generated(), streamed);
    (streamed, used)
}

#[test]
fn decode_turn_stops_on_an_end_id_without_emitting_it() {
    assert_eq!(drive(6, vec![], &[3, 1, 4, 1, 5, 9, 2]), (vec![3, 1, 4, 1, 5, 9], 6));
    assert_eq!(drive(6, vec![4], &[3, 1, 4, 1, 5, 9]), (vec![3, 1], 3));
    assert_eq!(drive(6, vec![3], &[3, 1]), (vec![], 1));
    assert_eq!(drive(0, vec![], &[]), (vec![], 0));
}

#[test]
fn repetition_window_and_step_seed() {
    assert_eq!(window_start(10, 64), 0);
    assert_eq!(window_start(100, 64), 36);
    assert_eq!(step_seed(42, 9), 51);
    assert_eq!(step_seed(u64::MAX, 2), 1);
}
