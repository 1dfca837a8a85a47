# abyss-top

A terminal monitor for the QEMU/KVM guests of a Linux host: load, memory, disk and network
throughput of every guest, its process and libvirt state, and the placement of its vCPUs and memory
on NUMA nodes.

The crate has two parts.

- `src/` is the library, written in Verus. Everything that the monitor computes or decides stands
  there with a contract that is proved: the parsers for `/proc`, `/sys`, QEMU arguments and `virsh`
  output, the arithmetic of rates and shares, sorting, the state of the monitor and how readings and
  keys change it, and what the screen shows.
- `app/` is the program around it. It reads files and processes, polls `virsh`, waits for keys and
  draws.

| Module | Holds |
|---|---|
| `text` | trimming, splitting, searching and number parsing |
| `qemu` | process detection, guest names, network interfaces |
| `counters` | I/O counters of a process |
| `topology`, `placement` | CPU lists, NUMA nodes, where memory lies |
| `threads` | what the kernel tells about vCPU threads |
| `float`, `single`, `double` | floating-point numbers as integers, rounded as IEEE 754 rounds |
| `rates` | throughput, waiting time and shares |
| `figures` | numbers as they are shown |
| `state`, `libvirt` | states of processes and of libvirt domains |
| `model`, `sort`, `samples` | guests and their order, samples of earlier ticks |
| `monitor` | the state of the monitor |
| `panes`, `screen` | the parts of the screen and what they show |

Laws that relate several functions are public proof functions whose names start with `law_`.

Three things are trusted and not proved: what `String::push` does, and two functions of `ratatui`
that compute where the parts of the screen lie.
